use vstd::prelude::*;
use crate::game::{
    spec_opponent, spec_result_from_scores, result_from_scores, GameMove, GameResult, GameState,
    PlayerColor,
};
use crate::text::{decimal, push_char, push_decimal, push_str};
use vstd::array::{spec_array_fill_for_copy_type, spec_array_update};

verus! {

/// The size of the board.  E.x. if 3, the board is a 3x3 grid.
pub const BOARD_SIZE: usize = 3;

/// A tic-tac-toe piece: X is played by Black, O by White.
#[derive(Copy, Clone, Debug, PartialEq, Eq, Structural)]
pub enum TicTacToePiece {
    X,
    O,
}

/// The color of the player who plays `piece`.
pub open spec fn spec_piece_color(piece: TicTacToePiece) -> PlayerColor {
    match piece {
        TicTacToePiece::X => PlayerColor::Black,
        TicTacToePiece::O => PlayerColor::White,
    }
}

/// The piece placed by `player`.
pub open spec fn spec_color_piece(player: PlayerColor) -> TicTacToePiece {
    match player {
        PlayerColor::Black => TicTacToePiece::X,
        PlayerColor::White => TicTacToePiece::O,
    }
}

impl TicTacToePiece {
    /// The color of the player who plays this piece.
    pub fn player_color(self) -> (r: PlayerColor)
        ensures
            r == spec_piece_color(self),
    {
        match self {
            TicTacToePiece::X => PlayerColor::Black,
            TicTacToePiece::O => PlayerColor::White,
        }
    }
}

/// A position on the board; (0,0) is the bottom-left position.
#[derive(Copy, Clone, PartialEq, Eq, Debug, Structural)]
pub struct BoardPosition {
    pub col: usize,
    pub row: usize,
}

impl BoardPosition {
    pub fn new(col: usize, row: usize) -> (r: BoardPosition)
        ensures
            r.col == col,
            r.row == row,
    {
        BoardPosition { col, row }
    }
}

/// A tic-tac-toe move: place the current player's piece at the position.
#[derive(Clone, Copy, Debug, PartialEq, Eq, Structural)]
pub struct TicTacToeAction(pub BoardPosition);

impl GameMove for TicTacToeAction {
    open spec fn spec_is_forced_pass(&self) -> bool {
        false
    }

    fn is_forced_pass(self) -> (r: bool) {
        false
    }

    fn same_move(self, other: Self) -> (r: bool) {
        self == other
    }

    /// The move as its fields read: the position's column and row.
    open spec fn spec_text(&self) -> Seq<char> {
        "TicTacToeAction(BoardPosition { col: "@ + decimal(self.0.col as nat) + ", row: "@
            + decimal(self.0.row as nat) + " })"@
    }

    fn text(self) -> (r: String) {
        let mut r = String::new();
        push_str(&mut r, "TicTacToeAction(BoardPosition { col: ");
        push_decimal(&mut r, self.0.col as u64);
        push_str(&mut r, ", row: ");
        push_decimal(&mut r, self.0.row as u64);
        push_str(&mut r, " })");
        r
    }
}

/// The index in the board array of the cell at (col, row).
pub open spec fn cell_index(col: int, row: int) -> int {
    (2 - row) * 3 + col
}

/// The number of cells of `s` that hold `v`.
pub open spec fn count_in(s: Seq<Option<TicTacToePiece>>, v: Option<TicTacToePiece>) -> nat
    decreases s.len(),
{
    if s.len() == 0 {
        0
    } else {
        count_in(s.drop_last(), v) + (if s.last() == v {
            1nat
        } else {
            0nat
        })
    }
}

/// Updating one cell changes the counts by what left and what came.
pub proof fn lemma_count_update(
    s: Seq<Option<TicTacToePiece>>,
    i: int,
    x: Option<TicTacToePiece>,
    v: Option<TicTacToePiece>,
)
    requires
        0 <= i < s.len(),
    ensures
        count_in(s.update(i, x), v) + (if s[i] == v {
            1nat
        } else {
            0nat
        }) == count_in(s, v) + (if x == v {
            1nat
        } else {
            0nat
        }),
    decreases s.len(),
{
    let t = s.update(i, x);
    if i == s.len() - 1 {
        assert(t.drop_last() =~= s.drop_last());
    } else {
        assert(t.drop_last() =~= s.drop_last().update(i, x));
        lemma_count_update(s.drop_last(), i, x, v);
    }
}

/// Every cell is empty, an X or an O.
pub proof fn lemma_count_total(s: Seq<Option<TicTacToePiece>>)
    ensures
        count_in(s, None) + count_in(s, Some(TicTacToePiece::X)) + count_in(
            s,
            Some(TicTacToePiece::O),
        ) == s.len(),
    decreases s.len(),
{
    if s.len() > 0 {
        lemma_count_total(s.drop_last());
        let t = s.drop_last();
        match s.last() {
            None => {},
            Some(TicTacToePiece::X) => {},
            Some(TicTacToePiece::O) => {},
        }
        assert(count_in(s, None) == count_in(t, None) + (if s.last() == None::<TicTacToePiece> {
            1nat
        } else {
            0nat
        }));
        assert(count_in(s, Some(TicTacToePiece::X)) == count_in(t, Some(TicTacToePiece::X)) + (
        if s.last() == Some(TicTacToePiece::X) {
            1nat
        } else {
            0nat
        }));
        assert(count_in(s, Some(TicTacToePiece::O)) == count_in(t, Some(TicTacToePiece::O)) + (
        if s.last() == Some(TicTacToePiece::O) {
            1nat
        } else {
            0nat
        }));
    }
}

/// A value that occurs nowhere is counted zero times.
pub proof fn lemma_count_zero(s: Seq<Option<TicTacToePiece>>, v: Option<TicTacToePiece>)
    requires
        forall|i: int| 0 <= i < s.len() ==> s[i] != v,
    ensures
        count_in(s, v) == 0,
    decreases s.len(),
{
    if s.len() > 0 {
        lemma_count_zero(s.drop_last(), v);
    }
}

/// The owner of a line of three cells: the piece that fills all three.
pub open spec fn line_owner(
    a: Option<TicTacToePiece>,
    b: Option<TicTacToePiece>,
    c: Option<TicTacToePiece>,
) -> Option<TicTacToePiece> {
    if a is Some && b == a && c == a {
        a
    } else {
        None
    }
}

/// `a`, unless it is `None`, in which case `b`.
pub open spec fn or_else(a: Option<TicTacToePiece>, b: Option<TicTacToePiece>) -> Option<
    TicTacToePiece,
> {
    if a is Some {
        a
    } else {
        b
    }
}

/// The character that shows a cell.
pub open spec fn piece_symbol(p: Option<TicTacToePiece>) -> char {
    match p {
        None => '_',
        Some(TicTacToePiece::X) => 'X',
        Some(TicTacToePiece::O) => 'O',
    }
}

/// True if `p` holds the three cells (c1, r1), (c2, r2) and (c3, r3) of `s`.
pub open spec fn holds_three(s: TicTacToeState, p: TicTacToePiece, c1: int, r1: int, c2: int, r2: int, c3: int, r3: int) -> bool {
    s.cell(c1, r1) == Some(p) && s.cell(c2, r2) == Some(p) && s.cell(c3, r3) == Some(p)
}

/// True if `p` fills a whole row, column or diagonal of the board of `s`.
pub open spec fn fills_line(s: TicTacToeState, p: TicTacToePiece) -> bool {
    ||| holds_three(s, p, 0, 0, 1, 0, 2, 0)
    ||| holds_three(s, p, 0, 1, 1, 1, 2, 1)
    ||| holds_three(s, p, 0, 2, 1, 2, 2, 2)
    ||| holds_three(s, p, 0, 0, 0, 1, 0, 2)
    ||| holds_three(s, p, 1, 0, 1, 1, 1, 2)
    ||| holds_three(s, p, 2, 0, 2, 1, 2, 2)
    ||| holds_three(s, p, 0, 0, 1, 1, 2, 2)
    ||| holds_three(s, p, 0, 2, 1, 1, 2, 0)
}

/// The winner is decided by the lines of the board: whoever fills a row,
/// column or diagonal with their pieces makes the board have a winner, and
/// a board has a winner only where that player's piece fills one.
pub proof fn lemma_winner_by_lines(s: TicTacToeState)
    ensures
        fills_line(s, TicTacToePiece::X) || fills_line(s, TicTacToePiece::O) ==> s.spec_winner() is Some,
        s.spec_winner() == Some(PlayerColor::Black) ==> fills_line(s, TicTacToePiece::X),
        s.spec_winner() == Some(PlayerColor::White) ==> fills_line(s, TicTacToePiece::O),
        !fills_line(s, TicTacToePiece::X) && !fills_line(s, TicTacToePiece::O) ==> s.spec_winner() is None,
{
}

/// The complete state of a tic-tac-toe game.
#[derive(Clone, Copy)]
pub struct TicTacToeState {
    board: [Option<TicTacToePiece>; 9],
    x_piece_count: usize,
    o_piece_count: usize,
    current_player_turn: PlayerColor,
}

impl TicTacToeState {
    /// The piece at (col, row), or None if the position is empty.
    pub closed spec fn cell(&self, col: int, row: int) -> Option<TicTacToePiece> {
        self.board@[cell_index(col, row)]
    }

    /// The board, cell by cell, in storage order.
    pub closed spec fn cells(&self) -> Seq<Option<TicTacToePiece>> {
        self.board@
    }

    /// The number of X pieces counted by the state.
    pub closed spec fn x_count(&self) -> nat {
        self.x_piece_count as nat
    }

    /// The number of O pieces counted by the state.
    pub closed spec fn o_count(&self) -> nat {
        self.o_piece_count as nat
    }

    /// The owner of row `y`.
    pub open spec fn row_owner(&self, y: int) -> Option<TicTacToePiece> {
        line_owner(self.cell(0, y), self.cell(1, y), self.cell(2, y))
    }

    /// The owner of column `x`.
    pub open spec fn col_owner(&self, x: int) -> Option<TicTacToePiece> {
        line_owner(self.cell(x, 0), self.cell(x, 1), self.cell(x, 2))
    }

    /// The piece that fills a whole line, searching rows bottom to top,
    /// then columns left to right, then the diagonal from the top-left,
    /// then the diagonal from the bottom-left.
    pub open spec fn spec_winning_piece(&self) -> Option<TicTacToePiece> {
        or_else(
            self.row_owner(0),
            or_else(
                self.row_owner(1),
                or_else(
                    self.row_owner(2),
                    or_else(
                        self.col_owner(0),
                        or_else(
                            self.col_owner(1),
                            or_else(
                                self.col_owner(2),
                                or_else(
                                    line_owner(self.cell(0, 2), self.cell(1, 1), self.cell(2, 0)),
                                    line_owner(self.cell(0, 0), self.cell(1, 1), self.cell(2, 2)),
                                ),
                            ),
                        ),
                    ),
                ),
            ),
        )
    }

    /// The player who has won, if any.
    pub open spec fn spec_winner(&self) -> Option<PlayerColor> {
        match self.spec_winning_piece() {
            Some(p) => Some(spec_piece_color(p)),
            None => None,
        }
    }

    /// The empty positions among the first `j` positions in scan order
    /// (row by row from the bottom, left to right in a row), as moves.
    pub open spec fn scan_moves(&self, j: int) -> Seq<TicTacToeAction>
        decreases j,
    {
        if j <= 0 {
            seq![]
        } else {
            let k = j - 1;
            let x = k % 3;
            let y = k / 3;
            self.scan_moves(k) + if self.cell(x, y) is None {
                seq![TicTacToeAction(BoardPosition { col: x as usize, row: y as usize })]
            } else {
                seq![]
            }
        }
    }

    /// The text of row `y`.
    pub open spec fn row_text(&self, y: int) -> Seq<char> {
        seq![
            piece_symbol(self.cell(0, y)),
            '|',
            piece_symbol(self.cell(1, y)),
            '|',
            piece_symbol(self.cell(2, y)),
            '\n',
        ]
    }

    /// The state with the cell at (col, row) set to `piece`.
    pub closed spec fn with_cell(&self, col: int, row: int, piece: Option<TicTacToePiece>) -> Self {
        let board = spec_array_update(self.board, cell_index(col, row), piece);
        TicTacToeState {
            board,
            x_piece_count: count_in(board@, Some(TicTacToePiece::X)) as usize,
            o_piece_count: count_in(board@, Some(TicTacToePiece::O)) as usize,
            current_player_turn: self.current_player_turn,
        }
    }

    /// An empty board, with Black to play.
    pub fn new() -> (r: Self)
        ensures
            r == Self::spec_initial(),
            forall|c: int, row: int| 0 <= c < 3 && 0 <= row < 3 ==> (#[trigger] r.cell(c, row)) is None,
            r.spec_turn() == PlayerColor::Black,
            r.wf(),
            r.spec_score(PlayerColor::White) == 0,
            r.spec_score(PlayerColor::Black) == 0,
    {
        proof {
            Self::lemma_initial_wf();
        }
        let board: [Option<TicTacToePiece>; 9] = [None;9];
        Self { board, x_piece_count: 0, o_piece_count: 0, current_player_turn: PlayerColor::Black }
    }

    fn transform_coords(position: BoardPosition) -> (r: (usize, usize))
        requires
            position.row < BOARD_SIZE,
        ensures
            r == (position.col, (2 - position.row) as usize),
    {
        (position.col, BOARD_SIZE - position.row - 1)
    }

    /// The piece at the position, or None if the position is empty.
    pub fn get_piece(&self, position: BoardPosition) -> (r: Option<TicTacToePiece>)
        requires
            position.col < BOARD_SIZE,
            position.row < BOARD_SIZE,
        ensures
            r == self.cell(position.col as int, position.row as int),
    {
        let (col_p, row_p) = Self::transform_coords(position);
        self.board[row_p * BOARD_SIZE + col_p]
    }

    /// Set the piece at the coordinates to the given piece, keeping the
    /// piece counts up to date.
    pub fn set_piece(&mut self, position: BoardPosition, piece: Option<TicTacToePiece>)
        requires
            old(self).wf(),
            position.col < BOARD_SIZE,
            position.row < BOARD_SIZE,
        ensures
            *final(self) == old(self).with_cell(position.col as int, position.row as int, piece),
            final(self).wf(),
    {
        let (col_p, row_p) = Self::transform_coords(position);
        let i = row_p * BOARD_SIZE + col_p;
        let existing = self.board[i];
        let ghost before = self.board@;
        proof {
            lemma_count_update(before, i as int, piece, Some(TicTacToePiece::X));
            lemma_count_update(before, i as int, piece, Some(TicTacToePiece::O));
            lemma_count_update(before, i as int, None, Some(TicTacToePiece::X));
            lemma_count_update(before, i as int, None, Some(TicTacToePiece::O));
            lemma_count_total(before);
        }
        match existing {
            Some(TicTacToePiece::X) => self.x_piece_count = self.x_piece_count - 1,
            Some(TicTacToePiece::O) => self.o_piece_count = self.o_piece_count - 1,
            _ => {},
        };
        match piece {
            Some(TicTacToePiece::X) => self.x_piece_count = self.x_piece_count + 1,
            Some(TicTacToePiece::O) => self.o_piece_count = self.o_piece_count + 1,
            _ => {},
        };
        self.board[i] = piece;
        proof {
            let expect = old(self).with_cell(position.col as int, position.row as int, piece);
            assert(self.board =~= expect.board);
        }
    }

    /// The number of characters of the human-friendly text.
    pub fn friendly_print_size() -> (r: usize)
        ensures
            r == 18,
    {
        18
    }

    /// True if the position lies on the board.
    pub fn within_board_bounds(position: BoardPosition) -> (r: bool)
        ensures
            r == (position.col < BOARD_SIZE && position.row < BOARD_SIZE),
    {
        position.col < BOARD_SIZE && position.row < BOARD_SIZE
    }

    /// Returns the color of the player who has filled a row, column, or
    /// diagonal with their pieces, if any.
    pub fn get_winner(&self) -> (r: Option<PlayerColor>)
        ensures
            r == self.spec_winner(),
    {
        // Does there exist any row, column, or diagonal
        // which belongs entirely to one player?
        // If so, that player has won the game.
        // Rows
        for y in 0..BOARD_SIZE
            invariant
                forall|k: int| 0 <= k < y ==> #[trigger] self.row_owner(k) is None,
        {
            let first_piece = self.get_piece(BoardPosition::new(0, y));
            // An empty first cell makes this row a bust, so move on to the next.
            if first_piece.is_some() {
            let mut x: usize = 1;
            while x < BOARD_SIZE
                invariant_except_break
                    1 <= x <= 2,
                    forall|k: int| 0 <= k < x ==> #[trigger] self.cell(k, y as int) == first_piece,
                invariant
                    forall|k: int| 0 <= k < y ==> #[trigger] self.row_owner(k) is None,
                    first_piece is Some,
                    first_piece == self.cell(0, y as int),
                    y < BOARD_SIZE,
                ensures
                    self.row_owner(y as int) is None,
                decreases BOARD_SIZE - x,
            {
                let piece = self.get_piece(BoardPosition::new(x, y));
                if piece != first_piece {
                    // This row is a bust, try the next one.
                    break;
                }
                if x == (BOARD_SIZE - 1) {
                    // The whole row holds one player's pieces.
                    assert(self.cell(1, y as int) == first_piece);
                    return Some(first_piece.unwrap().player_color());
                }
                x = x + 1;
            }
            }
        }
        // Columns
        for x in 0..BOARD_SIZE
            invariant
                forall|k: int| 0 <= k < 3 ==> #[trigger] self.row_owner(k) is None,
                forall|k: int| 0 <= k < x ==> #[trigger] self.col_owner(k) is None,
        {
            let first_piece = self.get_piece(BoardPosition::new(x, 0));
            if first_piece.is_some() {
            let mut y: usize = 1;
            while y < BOARD_SIZE
                invariant_except_break
                    1 <= y <= 2,
                    forall|k: int| 0 <= k < y ==> #[trigger] self.cell(x as int, k) == first_piece,
                invariant
                    forall|k: int| 0 <= k < 3 ==> #[trigger] self.row_owner(k) is None,
                    forall|k: int| 0 <= k < x ==> #[trigger] self.col_owner(k) is None,
                    first_piece is Some,
                    first_piece == self.cell(x as int, 0),
                    x < BOARD_SIZE,
                ensures
                    self.col_owner(x as int) is None,
                decreases BOARD_SIZE - y,
            {
                let piece = self.get_piece(BoardPosition::new(x, y));
                if piece != first_piece {
                    break;
                }
                if y == (BOARD_SIZE - 1) {
                    assert(self.cell(x as int, 1) == first_piece);
                    return Some(first_piece.unwrap().player_color());
                }
                y = y + 1;
            }
            }
        }
        assert(self.row_owner(0) is None && self.row_owner(1) is None && self.row_owner(2) is None);
        assert(self.col_owner(0) is None && self.col_owner(1) is None && self.col_owner(2) is None);
        // Diagonals
        // Top-left to bottom-right
        {
            let top_left_first_piece = self.get_piece(BoardPosition::new(0, BOARD_SIZE - 1));
            if top_left_first_piece.is_some() {
                let mut xy: usize = 1;
                while xy < BOARD_SIZE
                    invariant_except_break
                        1 <= xy <= 2,
                        forall|k: int| 0 <= k < xy ==> #[trigger] self.cell(k, 2 - k) == top_left_first_piece,
                    invariant
                        top_left_first_piece is Some,
                        top_left_first_piece == self.cell(0, 2),
                        self.row_owner(0) is None && self.row_owner(1) is None
                            && self.row_owner(2) is None,
                        self.col_owner(0) is None && self.col_owner(1) is None
                            && self.col_owner(2) is None,
                    ensures
                        line_owner(self.cell(0, 2), self.cell(1, 1), self.cell(2, 0)) is None,
                    decreases BOARD_SIZE - xy,
                {
                    let piece = self.get_piece(BoardPosition::new(xy, BOARD_SIZE - xy - 1));
                    if piece != top_left_first_piece {
                        break;
                    }
                    if xy == BOARD_SIZE - 1 {
                        assert(self.cell(1, 1) == top_left_first_piece);
                        return Some(top_left_first_piece.unwrap().player_color());
                    }
                    xy = xy + 1;
                }
            }
        }
        // Bottom-left to top-right
        {
            let bottom_left_first_piece = self.get_piece(BoardPosition::new(0, 0));
            if bottom_left_first_piece.is_some() {
                let mut xy: usize = 1;
                while xy < BOARD_SIZE
                    invariant_except_break
                        1 <= xy <= 2,
                        forall|k: int| 0 <= k < xy ==> #[trigger] self.cell(k, k) == bottom_left_first_piece,
                    invariant
                        bottom_left_first_piece is Some,
                        bottom_left_first_piece == self.cell(0, 0),
                        self.row_owner(0) is None && self.row_owner(1) is None
                            && self.row_owner(2) is None,
                        self.col_owner(0) is None && self.col_owner(1) is None
                            && self.col_owner(2) is None,
                        line_owner(self.cell(0, 2), self.cell(1, 1), self.cell(2, 0)) is None,
                    ensures
                        line_owner(self.cell(0, 0), self.cell(1, 1), self.cell(2, 2)) is None,
                    decreases BOARD_SIZE - xy,
                {
                    let piece = self.get_piece(BoardPosition::new(xy, xy));
                    if piece != bottom_left_first_piece {
                        break;
                    }
                    if xy == BOARD_SIZE - 1 {
                        assert(self.cell(1, 1) == bottom_left_first_piece);
                        return Some(bottom_left_first_piece.unwrap().player_color());
                    }
                    xy = xy + 1;
                }
            }
        }
        None
    }

    /// The result of the game decided by who has filled a line: the
    /// winner, a tie when the game is over without one, and None while the
    /// game goes on.
    pub fn game_result_by_winner(&self) -> (r: Option<GameResult>)
        requires
            self.wf(),
        ensures
            r == (if !self.spec_game_over() {
                None
            } else {
                match self.spec_winner() {
                    Some(PlayerColor::Black) => Some(GameResult::BlackWins),
                    Some(PlayerColor::White) => Some(GameResult::WhiteWins),
                    None => Some(GameResult::Tie),
                }
            }),
    {
        if self.is_game_over() {
            return match self.get_winner() {
                Some(PlayerColor::Black) => Some(GameResult::BlackWins),
                Some(PlayerColor::White) => Some(GameResult::WhiteWins),
                None => Some(GameResult::Tie),
            };
        }
        None
    }
}

/// The moves listed by `scan_moves` are in-bounds positions of empty cells.
proof fn lemma_scan_moves_empty(s: TicTacToeState, j: int)
    requires
        0 <= j <= 9,
    ensures
        forall|i: int|
            0 <= i < s.scan_moves(j).len() ==> {
                let m = #[trigger] s.scan_moves(j)[i];
                &&& m.0.col < 3
                &&& m.0.row < 3
                &&& s.cell(m.0.col as int, m.0.row as int) is None
            },
    decreases j,
{
    if j > 0 {
        lemma_scan_moves_empty(s, j - 1);
        let k = j - 1;
        assert forall|i: int| 0 <= i < s.scan_moves(j).len() implies {
            let m = #[trigger] s.scan_moves(j)[i];
            &&& m.0.col < 3
            &&& m.0.row < 3
            &&& s.cell(m.0.col as int, m.0.row as int) is None
        } by {
            if i < s.scan_moves(k).len() {
                assert(s.scan_moves(j)[i] == s.scan_moves(k)[i]);
            }
        }
    }
}

/// If no cell among the first `j` in scan order is empty, the scan finds
/// no move.
proof fn lemma_scan_moves_none(s: TicTacToeState, j: int)
    requires
        0 <= j <= 9,
        s.scan_moves(j).len() == 0,
    ensures
        forall|k: int| 0 <= k < j ==> #[trigger] s.cell(k % 3, k / 3) is Some,
    decreases j,
{
    if j > 0 {
        lemma_scan_moves_none(s, j - 1);
    }
}

impl TicTacToeState {
    pub closed spec fn model_wf(&self) -> bool {
        &&& self.x_piece_count == count_in(self.board@, Some(TicTacToePiece::X))
        &&& self.o_piece_count == count_in(self.board@, Some(TicTacToePiece::O))
    }

    pub closed spec fn model_turn(&self) -> PlayerColor {
        self.current_player_turn
    }

    pub closed spec fn model_legal_moves(&self, player: PlayerColor) -> Seq<TicTacToeAction> {
        self.scan_moves(9)
    }

    pub closed spec fn model_apply(&self, action: TicTacToeAction) -> Self {
        let placed = self.with_cell(
            action.0.col as int,
            action.0.row as int,
            Some(spec_color_piece(self.current_player_turn)),
        );
        TicTacToeState { current_player_turn: spec_opponent(self.current_player_turn), ..placed }
    }

    pub closed spec fn model_game_over(&self) -> bool {
        self.spec_winner() is Some || self.x_piece_count + self.o_piece_count == 9
    }

    pub closed spec fn model_game_result(&self) -> Option<GameResult> {
        spec_result_from_scores(
            self.spec_game_over(),
            self.o_piece_count as nat,
            self.x_piece_count as nat,
        )
    }

    pub closed spec fn model_score(&self, player: PlayerColor) -> nat {
        match player {
            PlayerColor::White => self.o_piece_count as nat,
            PlayerColor::Black => self.x_piece_count as nat,
        }
    }

    pub closed spec fn model_initial() -> Self {
        TicTacToeState {
            board: spec_array_fill_for_copy_type::<Option<TicTacToePiece>, 9>(None),
            x_piece_count: 0,
            o_piece_count: 0,
            current_player_turn: PlayerColor::Black,
        }
    }

    pub closed spec fn model_human_friendly(&self) -> Seq<char> {
        self.row_text(2) + self.row_text(1) + self.row_text(0)
    }

    pub closed spec fn model_remaining(&self) -> nat {
        count_in(self.board@, None)
    }
    /// What a move does: the mover's piece lands on the chosen empty cell,
    /// every other cell keeps its piece, the turn passes to the opponent,
    /// the state stays consistent, and the mover has one piece more.
    pub proof fn lemma_apply_cells(&self, action: TicTacToeAction)
        requires
            self.wf(),
            self.spec_can_apply(action),
        ensures
            self.spec_apply(action).wf(),
            self.spec_apply(action).cell(action.0.col as int, action.0.row as int) == Some(
                spec_color_piece(self.spec_turn()),
            ),
            forall|c: int, row: int|
                0 <= c < 3 && 0 <= row < 3 && !(c == action.0.col && row == action.0.row) ==> #[trigger] self.spec_apply(
                    action,
                ).cell(c, row) == self.cell(c, row),
            self.spec_apply(action).spec_turn() == spec_opponent(self.spec_turn()),
            self.spec_apply(action).spec_score(self.spec_turn()) == self.spec_score(self.spec_turn()) + 1,
            self.spec_apply(action).spec_score(spec_opponent(self.spec_turn())) == self.spec_score(
                spec_opponent(self.spec_turn()),
            ),
    {
        self.lemma_apply_wf(action);
        let idx = cell_index(action.0.col as int, action.0.row as int);
        let piece = Some(spec_color_piece(self.current_player_turn));
        let b = self.board@;
        let nb = spec_array_update(self.board, idx, piece)@;
        assert(nb == b.update(idx, piece));
        lemma_count_update(b, idx, piece, Some(TicTacToePiece::X));
        lemma_count_update(b, idx, piece, Some(TicTacToePiece::O));
        assert forall|c: int, row: int|
            0 <= c < 3 && 0 <= row < 3 && !(c == action.0.col && row == action.0.row) implies #[trigger] self.spec_apply(
                action,
            ).cell(c, row) == self.cell(c, row) by {
            assert(cell_index(c, row) != idx);
        }
    }

    /// Whether the game is over, and its result, read from the board and
    /// the scores: it is over once a line is filled or the board is full,
    /// and then the player with more pieces wins.
    pub proof fn lemma_outcome(&self)
        requires
            self.wf(),
        ensures
            self.spec_game_over() == (self.spec_winner() is Some || self.spec_score(PlayerColor::White)
                + self.spec_score(PlayerColor::Black) == 9),
            self.spec_game_result() == spec_result_from_scores(
                self.spec_game_over(),
                self.spec_score(PlayerColor::White),
                self.spec_score(PlayerColor::Black),
            ),
    {
    }

    /// Placing a piece on an empty cell leaves one empty cell fewer.
    pub proof fn lemma_move_progress(&self, m: TicTacToeAction)
        requires
            m.0.col < 3,
            m.0.row < 3,
            self.cell(m.0.col as int, m.0.row as int) is None,
        ensures
            self.model_apply(m).model_remaining() < self.model_remaining(),
    {
        let idx = cell_index(m.0.col as int, m.0.row as int);
        lemma_count_update(self.board@, idx, Some(spec_color_piece(self.current_player_turn)), None);
        assert(spec_array_update(self.board, idx, Some(spec_color_piece(self.current_player_turn)))@
            == self.board@.update(idx, Some(spec_color_piece(self.current_player_turn))));
    }
}

impl GameState for TicTacToeState {
    type Move = TicTacToeAction;

    open spec fn wf(&self) -> bool {
        self.model_wf()
    }

    open spec fn spec_turn(&self) -> PlayerColor {
        self.model_turn()
    }

    open spec fn spec_legal_moves(&self, player: PlayerColor) -> Seq<TicTacToeAction> {
        self.model_legal_moves(player)
    }

    /// A move is accepted on an empty cell of the board only.
    open spec fn spec_can_apply(&self, action: TicTacToeAction) -> bool {
        action.0.col < BOARD_SIZE && action.0.row < BOARD_SIZE && self.cell(action.0.col as int, action.0.row as int)
            is None
    }

    open spec fn spec_apply(&self, action: TicTacToeAction) -> Self {
        self.model_apply(action)
    }

    open spec fn spec_game_over(&self) -> bool {
        self.model_game_over()
    }

    open spec fn spec_game_result(&self) -> Option<GameResult> {
        self.model_game_result()
    }

    open spec fn spec_has_score(&self) -> bool {
        true
    }

    open spec fn spec_score(&self, player: PlayerColor) -> nat {
        self.model_score(player)
    }

    open spec fn spec_can_skip(&self) -> bool {
        false
    }

    open spec fn spec_skip(&self) -> Self {
        *self
    }

    /// The result is read from a consistent state only.
    open spec fn spec_result_readable(&self) -> bool {
        false
    }

    open spec fn spec_initial() -> Self {
        Self::model_initial()
    }

    open spec fn spec_human_friendly(&self) -> Seq<char> {
        self.model_human_friendly()
    }

    open spec fn spec_remaining(&self) -> nat {
        self.model_remaining()
    }

    fn clone_state(&self) -> (r: Self) {
        *self
    }

    /// Returns a human-friendly string for representing the state.
    fn human_friendly(&self) -> (r: String) {
        let mut result = String::new();
        let mut k: usize = 0;
        while k < BOARD_SIZE
            invariant
                k <= BOARD_SIZE,
                result@ == (if k == 0 {
                    seq![]
                } else if k == 1 {
                    self.row_text(2)
                } else if k == 2 {
                    self.row_text(2) + self.row_text(1)
                } else {
                    self.row_text(2) + self.row_text(1) + self.row_text(0)
                }),
            decreases BOARD_SIZE - k,
        {
            let y = BOARD_SIZE - 1 - k;
            let ghost start = result@;
            for x in 0..BOARD_SIZE
                invariant
                    y < BOARD_SIZE,
                    result@ == start + self.row_text(y as int).take(2 * x as int),
            {
                let position = BoardPosition::new(x, y);
                let symbol = match self.get_piece(position) {
                    None => '_',
                    Some(TicTacToePiece::X) => 'X',
                    Some(TicTacToePiece::O) => 'O',
                };
                push_char(&mut result, symbol);
                if x != BOARD_SIZE - 1 {
                    push_char(&mut result, '|');
                } else {
                    push_char(&mut result, '\n');
                }
                assert(result@ == start + self.row_text(y as int).take(2 * (x + 1) as int));
            }
            assert(self.row_text(y as int).take(6) =~= self.row_text(y as int));
            k = k + 1;
        }
        result
    }

    /// Sets the state to its initial, ready-to-play position.
    fn initialize_board(&mut self) {
        for i in 0..9
            invariant
                forall|j: int| 0 <= j < i ==> self.board@[j] is None,
        {
            self.board[i] = None;
        }
        self.x_piece_count = 0;
        self.o_piece_count = 0;
        self.current_player_turn = PlayerColor::Black;
        proof {
            assert(self.board =~= Self::spec_initial().board);
        }
    }

    /// Returns a fresh, ready-to-play game state for this game.
    fn initial_state() -> (r: Self) {
        let mut uninitialized = Self::new();
        uninitialized.initialize_board();
        uninitialized
    }

    /// Returns the possible moves: in tic-tac-toe, any empty spot is a
    /// legal position for either player.
    fn legal_moves(&self, _player: PlayerColor) -> (r: Vec<TicTacToeAction>) {
        let mut actions: Vec<TicTacToeAction> = Vec::new();
        for y in 0..BOARD_SIZE
            invariant
                actions@ == self.scan_moves(3 * y as int),
        {
            for x in 0..BOARD_SIZE
                invariant
                    y < BOARD_SIZE,
                    actions@ == self.scan_moves(3 * y + x as int),
            {
                let position = BoardPosition::new(x, y);
                match self.get_piece(position) {
                    Some(_) => {},
                    None => actions.push(TicTacToeAction(position)),
                }
                assert(((3 * y + x) as int) % 3 == x as int);
                assert(((3 * y + x) as int) / 3 == y as int);
            }
        }
        actions
    }

    /// Place the current player's piece at the move's position and pass
    /// the turn to the opponent.
    fn apply_move(&mut self, action: TicTacToeAction) {
        let piece = match self.current_player_turn() {
            PlayerColor::Black => TicTacToePiece::X,
            PlayerColor::White => TicTacToePiece::O,
        };
        self.set_piece(action.0, Some(piece));
        self.current_player_turn = self.current_player_turn.opponent();
    }

    fn current_player_turn(&self) -> (r: PlayerColor) {
        proof {
            assert(self.model_turn() == self.current_player_turn);
            assert(self.spec_turn() == self.model_turn());
        }
        self.current_player_turn
    }

    /// The score of a player is the number of their pieces on the board.
    fn player_score(&self, player: PlayerColor) -> (r: usize) {
        match player {
            PlayerColor::White => self.o_piece_count,
            PlayerColor::Black => self.x_piece_count,
        }
    }

    /// Skipping turns is not a valid operation in tic-tac-toe.
    fn skip_turn(&mut self) {
    }

    /// True if a player has won, or the board is full.
    fn is_game_over(&self) -> (r: bool) {
        proof {
            lemma_count_total(self.board@);
        }
        self.get_winner().is_some() || self.x_piece_count + self.o_piece_count == (BOARD_SIZE
            * BOARD_SIZE)
    }

    /// The player with more pieces on the board wins.
    fn game_result(&self) -> (r: Option<GameResult>) {
        let over = self.is_game_over();
        result_from_scores(over, self.player_score(PlayerColor::White), self.player_score(PlayerColor::Black))
    }

    proof fn lemma_initial_wf() {
        let s = Self::spec_initial();
        lemma_count_zero(s.board@, Some(TicTacToePiece::X));
        lemma_count_zero(s.board@, Some(TicTacToePiece::O));
    }

    proof fn lemma_apply_wf(&self, action: TicTacToeAction) {
        let idx = cell_index(action.0.col as int, action.0.row as int);
        let board = spec_array_update(
            self.board,
            idx,
            Some(spec_color_piece(self.current_player_turn)),
        );
        lemma_count_total(board@);
    }

    proof fn lemma_playable(&self) {
        let moves = self.scan_moves(9);
        lemma_count_total(self.board@);
        lemma_scan_moves_empty(*self, 9);
        if moves.len() == 0 {
            lemma_scan_moves_none(*self, 9);
            assert forall|b: int| 0 <= b < 9 implies self.board@[b] != None::<TicTacToePiece> by {
                let col = b % 3;
                let row = 2 - b / 3;
                let k = row * 3 + col;
                assert(self.cell(k % 3, k / 3) is Some);
            }
            lemma_count_zero(self.board@, None);
        }
        assert(moves == self.spec_legal_moves(self.spec_turn()));
        assert forall|i: int| 0 <= i < self.spec_legal_moves(self.spec_turn()).len() implies {
            &&& #[trigger] self.spec_can_apply(self.spec_legal_moves(self.spec_turn())[i])
            &&& self.spec_apply(self.spec_legal_moves(self.spec_turn())[i]).spec_remaining()
                < self.spec_remaining()
        } by {
            let m = moves[i];
            assert(self.cell(m.0.col as int, m.0.row as int) is None);
            self.lemma_move_progress(m);
        }
    }

    proof fn lemma_result_iff_over(&self) {
    }
}

} // verus!
