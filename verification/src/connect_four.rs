use vstd::prelude::*;
use vstd::array::{spec_array_fill_for_copy_type, spec_array_update};
use crate::game::{GameMove, GameResult, GameState, PlayerColor, spec_opponent};
use crate::text::{decimal, push_char, push_decimal, push_str, std_parse_usize, str_chars, string_of, trim, trimmed, usize_text};

verus! {

/// The number of columns.
pub const GAME_WIDTH: usize = 7;

/// The number of rows.
pub const GAME_HEIGHT: usize = GAME_WIDTH - 1;

/// True if (col, height) lies on the board.
pub open spec fn in_range(col: int, height: int) -> bool {
    0 <= col < 7 && 0 <= height < 6
}

/// True if the position (col, height) lies on the board.
pub fn is_in_range(col: usize, height: usize) -> (r: bool)
    ensures
        r == in_range(col as int, height as int),
{
    col < GAME_WIDTH && height < GAME_HEIGHT
}

/// The contents of a board position.
#[derive(Clone, Copy, PartialEq, Eq, Debug, Structural)]
pub enum ConnectFourPiece {
    Black,
    Red,
    Empty,
}

/// The character that shows a piece.
pub open spec fn piece_char(p: ConnectFourPiece) -> char {
    match p {
        ConnectFourPiece::Black => 'X',
        ConnectFourPiece::Red => 'O',
        ConnectFourPiece::Empty => ' ',
    }
}

impl ConnectFourPiece {
    /// The character that shows this piece.
    pub fn symbol(self) -> (r: char)
        ensures
            r == piece_char(self),
    {
        match self {
            ConnectFourPiece::Black => 'X',
            ConnectFourPiece::Red => 'O',
            ConnectFourPiece::Empty => ' ',
        }
    }
}

/// A connect-four move: drop a piece in a column.
#[derive(Debug, PartialEq, Eq, Copy, Clone, Structural)]
pub struct ConnectFourAction {
    /// The col index where the piece will be dropped,
    /// where 0 is the leftmost col and GAME_WIDTH-1 is the rightmost.
    pub col: usize,
}

impl ConnectFourAction {
    pub fn new(col: usize) -> (r: Self)
        ensures
            r.col == col,
    {
        Self { col }
    }
}

impl std::str::FromStr for ConnectFourAction {
    type Err = std::num::ParseIntError;

    /// Reads a column number, surrounded by any white space.
    fn from_str(s: &str) -> (r: Result<Self, Self::Err>)
        ensures
            match r {
                Ok(a) => usize_text(trimmed(s@)) == Some(a.col),
                Err(_) => usize_text(trimmed(s@)) is None,
            },
    {
        let chars = str_chars(s);
        let text = string_of(trim(chars.as_slice()).as_slice());
        match std_parse_usize(text.as_str()) {
            Ok(col) => Ok(ConnectFourAction::new(col)),
            Err(e) => Err(e),
        }
    }
}

impl GameMove for ConnectFourAction {
    open spec fn spec_is_forced_pass(&self) -> bool {
        false
    }

    /// No such thing in this game.
    fn is_forced_pass(self) -> (r: bool) {
        false
    }

    fn same_move(self, other: Self) -> (r: bool) {
        self == other
    }

    /// "col: " and the column.
    open spec fn spec_text(&self) -> Seq<char> {
        "col: "@ + decimal(self.col as nat)
    }

    fn text(self) -> (r: String) {
        let mut r = String::new();
        push_str(&mut r, "col: ");
        push_decimal(&mut r, self.col as u64);
        r
    }
}

/// The index in the board array of (col, height).
pub open spec fn cf_index(col: int, height: int) -> int {
    height * 7 + col
}

/// The piece at (col, height) of the board `b`.
pub open spec fn cf_at(b: Seq<ConnectFourPiece>, col: int, height: int) -> ConnectFourPiece {
    b[cf_index(col, height)]
}

/// `k` steps along a direction component `d`.
pub open spec fn cf_step(d: int, k: int) -> int {
    if d > 0 {
        k
    } else if d < 0 {
        -k
    } else {
        0
    }
}

/// The number of consecutive pieces equal to `color` along (dc, dh) from
/// (x, y), starting `i` steps away.
pub open spec fn same_from(
    b: Seq<ConnectFourPiece>,
    x: int,
    y: int,
    color: ConnectFourPiece,
    dc: int,
    dh: int,
    i: int,
) -> nat
    decreases 7 - i,
{
    if i < 1 || i >= 7 {
        0
    } else if in_range(x + cf_step(dc, i), y + cf_step(dh, i)) && cf_at(
        b,
        x + cf_step(dc, i),
        y + cf_step(dh, i),
    ) == color {
        1 + same_from(b, x, y, color, dc, dh, i + 1)
    } else {
        0
    }
}

/// The length of the single-color line through (x, y) along (dc, dh),
/// counting (x, y) itself and both directions.
pub open spec fn line_len(b: Seq<ConnectFourPiece>, x: int, y: int, dc: int, dh: int) -> nat {
    1 + same_from(b, x, y, cf_at(b, x, y), -dc, -dh, 1) + same_from(b, x, y, cf_at(b, x, y), dc, dh, 1)
}

/// The direction component of index `i` in the order -1, 0, 1.
pub open spec fn cf_dir_value(i: int) -> int {
    i - 1
}

/// True if one of the first `t` directions has a line of four through (x, y).
pub open spec fn four_upto(b: Seq<ConnectFourPiece>, x: int, y: int, t: int) -> bool
    decreases t,
{
    if t <= 0 {
        false
    } else {
        let dc = cf_dir_value((t - 1) / 3);
        let dh = cf_dir_value((t - 1) % 3);
        four_upto(b, x, y, t - 1) || (!(dc == 0 && dh == 0) && line_len(b, x, y, dc, dh) >= 4)
    }
}

/// True if the piece at (x, y) is part of four (or more) in a row.
pub open spec fn four_in_a_row(b: Seq<ConnectFourPiece>, x: int, y: int) -> bool {
    cf_at(b, x, y) != ConnectFourPiece::Empty && four_upto(b, x, y, 9)
}

/// The columns among the first `k` that still have room, as moves.
pub open spec fn open_cols(heights: Seq<usize>, k: int) -> Seq<ConnectFourAction>
    decreases k,
{
    if k <= 0 {
        seq![]
    } else {
        open_cols(heights, k - 1) + if heights[k - 1] < 6 {
            seq![ConnectFourAction { col: (k - 1) as usize }]
        } else {
            seq![]
        }
    }
}

/// The sum of the first `k` column heights.
pub open spec fn sum_heights(heights: Seq<usize>, k: int) -> nat
    decreases k,
{
    if k <= 0 {
        0
    } else {
        sum_heights(heights, k - 1) + heights[k - 1] as nat
    }
}

/// The legal columns laid out in an array of seven: the open columns in
/// order, then 7 in every unused slot.
pub open spec fn legal_slots(heights: Seq<usize>) -> Seq<usize> {
    let open = open_cols(heights, 7);
    Seq::new(7, |i: int| if i < open.len() { open[i].col } else { 7 })
}

/// `a` with its first `n` entries replaced by those of `s`.
pub open spec fn usize_array_from(a: [usize; 7], s: Seq<usize>, n: int) -> [usize; 7]
    decreases n,
{
    if n <= 0 {
        a
    } else {
        spec_array_update(usize_array_from(a, s, n - 1), n - 1, s[n - 1])
    }
}

/// The array of seven whose contents are `s`.
pub open spec fn usize_array_of(s: Seq<usize>) -> [usize; 7] {
    usize_array_from(spec_array_fill_for_copy_type::<usize, 7>(0), s, 7)
}

/// `usize_array_from(a, s, n)` holds `s` before `n` and `a` from `n` on.
pub proof fn lemma_usize_array_from(a: [usize; 7], s: Seq<usize>, n: int)
    requires
        0 <= n <= 7,
        s.len() == 7,
    ensures
        usize_array_from(a, s, n)@.len() == 7,
        forall|i: int| 0 <= i < n ==> #[trigger] usize_array_from(a, s, n)@[i] == s[i],
        forall|i: int| n <= i < 7 ==> #[trigger] usize_array_from(a, s, n)@[i] == a@[i],
    decreases n,
{
    if n > 0 {
        lemma_usize_array_from(a, s, n - 1);
    }
}

/// The contents of `usize_array_of(s)` are `s`.
pub proof fn lemma_usize_array_of(s: Seq<usize>)
    requires
        s.len() == 7,
    ensures
        usize_array_of(s)@ == s,
{
    lemma_usize_array_from(spec_array_fill_for_copy_type::<usize, 7>(0), s, 7);
    assert(usize_array_of(s)@ =~= s);
}


/// The text of the first `n` positions of row `h`: each piece and a bar.
pub open spec fn cf_cells_text(b: Seq<ConnectFourPiece>, h: int, n: int) -> Seq<char>
    decreases n,
{
    if n <= 0 {
        seq![]
    } else {
        cf_cells_text(b, h, n - 1) + seq![piece_char(cf_at(b, n - 1, h)), '|']
    }
}

/// The text of the top `k` rows.
pub open spec fn cf_rows_text(b: Seq<ConnectFourPiece>, k: int) -> Seq<char>
    decreases k,
{
    if k <= 0 {
        seq![]
    } else {
        cf_rows_text(b, k - 1) + seq!['|'] + cf_cells_text(b, 6 - k, 7) + seq!['\n']
    }
}

/// The decimal digit of `d`, for `d` below 10.
pub open spec fn cf_digit(d: int) -> char {
    if d == 0 {
        '0'
    } else if d == 1 {
        '1'
    } else if d == 2 {
        '2'
    } else if d == 3 {
        '3'
    } else if d == 4 {
        '4'
    } else if d == 5 {
        '5'
    } else {
        '6'
    }
}

/// The column labels of the first `n` columns, each followed by a space.
pub open spec fn cf_labels(n: int) -> Seq<char>
    decreases n,
{
    if n <= 0 {
        seq![]
    } else {
        cf_labels(n - 1) + seq![cf_digit(n - 1), ' ']
    }
}

/// The human-friendly text of a board.
pub open spec fn cf_board_text(b: Seq<ConnectFourPiece>) -> Seq<char> {
    cf_rows_text(b, 6) + seq![' '] + cf_labels(7)
}

/// Heights of at most six add up to at most six per column.
pub proof fn lemma_sum_bound(h: Seq<usize>, k: int)
    requires
        0 <= k <= h.len(),
        forall|i: int| 0 <= i < k ==> #[trigger] h[i] <= 6,
    ensures
        sum_heights(h, k) <= 6 * k,
    decreases k,
{
    if k > 0 {
        lemma_sum_bound(h, k - 1);
    }
}

/// One column short of full keeps the sum below full.
pub proof fn lemma_sum_short(h: Seq<usize>, k: int, j: int)
    requires
        0 <= j < k <= h.len(),
        forall|i: int| 0 <= i < k ==> #[trigger] h[i] <= 6,
        h[j] < 6,
    ensures
        sum_heights(h, k) < 6 * k,
    decreases k,
{
    if j < k - 1 {
        lemma_sum_short(h, k - 1, j);
    } else {
        lemma_sum_bound(h, k - 1);
    }
}

/// Raising one column raises the sum by as much.
pub proof fn lemma_sum_update(h: Seq<usize>, k: int, j: int, v: usize)
    requires
        0 <= j < h.len(),
        0 <= k <= h.len(),
    ensures
        sum_heights(h.update(j, v), k) == sum_heights(h, k) + (if j < k {
            v - h[j]
        } else {
            0
        }),
    decreases k,
{
    if k > 0 {
        lemma_sum_update(h, k - 1, j, v);
    }
}

/// A sum below full leaves an open column.
pub proof fn lemma_open_exists(h: Seq<usize>, k: int)
    requires
        0 <= k <= h.len(),
        forall|i: int| 0 <= i < k ==> #[trigger] h[i] <= 6,
        sum_heights(h, k) < 6 * k,
    ensures
        open_cols(h, k).len() > 0,
    decreases k,
{
    if k > 0 && h[k - 1] == 6 {
        lemma_open_exists(h, k - 1);
    }
}

/// The moves found among open columns are columns with room.
pub proof fn lemma_open_cols(h: Seq<usize>, k: int)
    requires
        0 <= k <= h.len(),
        k <= 7,
    ensures
        forall|i: int|
            0 <= i < open_cols(h, k).len() ==> {
                let m = #[trigger] open_cols(h, k)[i];
                &&& m.col < k
                &&& h[m.col as int] < 6
            },
    decreases k,
{
    if k > 0 {
        lemma_open_cols(h, k - 1);
        assert forall|i: int| 0 <= i < open_cols(h, k).len() implies {
            let m = #[trigger] open_cols(h, k)[i];
            &&& m.col < k
            &&& h[m.col as int] < 6
        } by {
            if i < open_cols(h, k - 1).len() {
                assert(open_cols(h, k)[i] == open_cols(h, k - 1)[i]);
            }
        }
    }
}

/// At most one move per column.
pub proof fn lemma_open_cols_len(h: Seq<usize>, k: int)
    requires
        0 <= k,
    ensures
        open_cols(h, k).len() <= k,
    decreases k,
{
    if k > 0 {
        lemma_open_cols_len(h, k - 1);
    }
}

/// The piece that `player` drops: Black's, or Red for White.
pub open spec fn player_piece(player: PlayerColor) -> ConnectFourPiece {
    match player {
        PlayerColor::Black => ConnectFourPiece::Black,
        PlayerColor::White => ConnectFourPiece::Red,
    }
}

/// The result recorded once `piece` has landed at (`col`, `h`) of board
/// `b`, making `count` pieces in all: a full board is a tie, else a line of
/// four through the new piece wins for its owner, else the result stays
/// `before`.
pub open spec fn result_after_drop(
    b: Seq<ConnectFourPiece>,
    col: int,
    h: int,
    piece: ConnectFourPiece,
    count: nat,
    before: Option<GameResult>,
) -> Option<GameResult> {
    if count >= 42 {
        Some(GameResult::Tie)
    } else if four_in_a_row(b, col, h) {
        if piece == ConnectFourPiece::Black {
            Some(GameResult::BlackWins)
        } else {
            Some(GameResult::WhiteWins)
        }
    } else {
        before
    }
}

/// The complete state of a connect-four game.
#[derive(Clone, Copy)]
pub struct ConnectFourState {
    player_turn: PlayerColor,
    board: [ConnectFourPiece; 42],
    col_cur_height: [usize; 7],
    /// The cached legal moves: `legal_count` columns, then padding.
    legal_cols: [usize; 7],
    legal_count: usize,
    game_result: Option<GameResult>,
    /// Count of pieces on the board.
    piece_count: usize,
}

impl ConnectFourState {
    /// The board, position by position, bottom row first.
    pub closed spec fn cells(&self) -> Seq<ConnectFourPiece> {
        self.board@
    }

    /// The height of every column.
    pub closed spec fn heights(&self) -> Seq<usize> {
        self.col_cur_height@
    }

    /// The cached legal moves.
    pub closed spec fn cached_moves(&self) -> Seq<ConnectFourAction> {
        Seq::new(self.legal_count as nat, |i: int| ConnectFourAction { col: self.legal_cols@[i] })
    }

    /// The recorded result.
    pub closed spec fn result(&self) -> Option<GameResult> {
        self.game_result
    }

    /// The number of pieces dropped.
    pub closed spec fn count(&self) -> nat {
        self.piece_count as nat
    }

    /// The player to move.
    pub closed spec fn turn(&self) -> PlayerColor {
        self.player_turn
    }

    /// The cache of legal moves matches the column heights.
    pub closed spec fn legal_cache_ok(&self) -> bool {
        self.legal_cols == usize_array_of(legal_slots(self.col_cur_height@))
            && self.legal_count == open_cols(self.col_cur_height@, 7).len()
    }

    /// The board's counts agree: every column's height is within the board,
    /// and the piece count is their sum. A board from `new` has them, though
    /// its cache of legal moves is still empty.
    pub closed spec fn counts_ok(&self) -> bool {
        &&& forall|i: int| 0 <= i < 7 ==> #[trigger] self.col_cur_height@[i] <= 6
        &&& self.piece_count == sum_heights(self.col_cur_height@, 7)
    }

    /// The state is consistent: heights within the board, the piece count
    /// is their sum, a full board has a result, and the cache of legal
    /// moves is up to date.
    pub closed spec fn inv(&self) -> bool {
        &&& forall|i: int| 0 <= i < 7 ==> #[trigger] self.col_cur_height@[i] <= 6
        &&& self.piece_count == sum_heights(self.col_cur_height@, 7)
        &&& self.piece_count >= 42 ==> self.game_result is Some
        &&& self.legal_cache_ok()
    }

    /// A fresh board with Black to play (its cache of legal moves is empty).
    pub closed spec fn model_new() -> Self {
        Self {
            player_turn: PlayerColor::Black,
            board: spec_array_fill_for_copy_type::<ConnectFourPiece, 42>(ConnectFourPiece::Empty),
            col_cur_height: spec_array_fill_for_copy_type::<usize, 7>(0),
            legal_cols: spec_array_fill_for_copy_type::<usize, 7>(0),
            legal_count: 0,
            game_result: None,
            piece_count: 0,
        }
    }

    /// The state with its cache of legal moves refreshed.
    pub closed spec fn with_legal_moves(&self) -> Self {
        Self {
            legal_cols: usize_array_of(legal_slots(self.col_cur_height@)),
            legal_count: open_cols(self.col_cur_height@, 7).len() as usize,
            ..*self
        }
    }

    /// The state after `piece` is dropped in column `col`.
    pub closed spec fn model_dropped(&self, col: int, piece: ConnectFourPiece) -> Self {
        let h = self.col_cur_height@[col] as int;
        let board = spec_array_update(self.board, cf_index(col, h), piece);
        let heights = spec_array_update(self.col_cur_height, col, (h + 1) as usize);
        let won = if four_in_a_row(board@, col, h) {
            match piece {
                ConnectFourPiece::Black => Some(GameResult::BlackWins),
                _ => Some(GameResult::WhiteWins),
            }
        } else {
            self.game_result
        };
        let count = self.piece_count + 1;
        let dropped = Self {
            board,
            col_cur_height: heights,
            game_result: if count >= 42 {
                Some(GameResult::Tie)
            } else {
                won
            },
            piece_count: count as usize,
            ..*self
        };
        dropped.with_legal_moves()
    }

    /// What dropping `piece` in column `col` does: it lands on top of the
    /// column, every other cell keeps its piece, the column grows by one,
    /// one more piece is counted, the turn stays, the result is recorded as
    /// `result_after_drop` says, and the state is consistent.
    pub proof fn lemma_dropped(&self, col: int, piece: ConnectFourPiece)
        requires
            self.counts_ok(),
            0 <= col < 7,
            self.heights()[col] < 6,
        ensures
            self.model_dropped(col, piece).inv(),
            self.model_dropped(col, piece).counts_ok(),
            cf_at(self.model_dropped(col, piece).cells(), col, self.heights()[col] as int) == piece,
            forall|c: int, h: int|
                in_range(c, h) && !(c == col && h == self.heights()[col]) ==> #[trigger] cf_at(
                    self.model_dropped(col, piece).cells(),
                    c,
                    h,
                ) == cf_at(self.cells(), c, h),
            self.model_dropped(col, piece).heights() == self.heights().update(
                col,
                (self.heights()[col] + 1) as usize,
            ),
            self.model_dropped(col, piece).count() == self.count() + 1,
            self.model_dropped(col, piece).turn() == self.turn(),
            self.model_dropped(col, piece).result() == result_after_drop(
                self.model_dropped(col, piece).cells(),
                col,
                self.heights()[col] as int,
                piece,
                self.count() + 1,
                self.result(),
            ),
    {
        let h = self.col_cur_height@;
        let d = self.model_dropped(col, piece);
        lemma_sum_short(h, 7, col);
        lemma_sum_update(h, 7, col, (h[col] + 1) as usize);
        assert(d.col_cur_height@ == h.update(col, (h[col] + 1) as usize));
        lemma_open_cols_len(d.col_cur_height@, 7);
        lemma_usize_array_of(legal_slots(d.col_cur_height@));
        let nb = spec_array_update(self.board, cf_index(col, h[col] as int), piece)@;
        assert(d.board@ == nb);
        assert forall|c: int, hh: int|
            in_range(c, hh) && !(c == col && hh == self.heights()[col]) implies #[trigger] cf_at(d.cells(), c, hh)
                == cf_at(self.cells(), c, hh) by {
            assert(cf_index(c, hh) != cf_index(col, h[col] as int));
        }
        if four_in_a_row(nb, col, h[col] as int) {
            assert(piece != ConnectFourPiece::Empty);
        }
    }

    /// A fresh board with Black to play; its cache of legal moves is empty
    /// until `update_legal_moves` is called.
    pub fn new() -> (r: Self)
        ensures
            r == Self::model_new(),
            forall|c: int, h: int| in_range(c, h) ==> #[trigger] cf_at(r.cells(), c, h) == ConnectFourPiece::Empty,
            r.heights() == Seq::new(7, |i: int| 0usize),
            r.count() == 0,
            r.turn() == PlayerColor::Black,
            r.counts_ok(),
            r.result() is None,
    {
        let r = Self {
            player_turn: PlayerColor::Black,
            col_cur_height: [0;7],
            board: [ConnectFourPiece::Empty;42],
            legal_cols: [0;7],
            legal_count: 0,
            game_result: None,
            piece_count: 0,
        };
        proof {
            let h = r.col_cur_height@;
            assert(h =~= Seq::new(7, |i: int| 0usize));
            reveal_with_fuel(sum_heights, 8);
            assert(sum_heights(h, 7) == 0);
        }
        r
    }

    /// Refresh the cached value of legal moves available from this state.
    fn update_legal_moves(&mut self)
        requires
            forall|i: int| 0 <= i < 7 ==> #[trigger] old(self).col_cur_height@[i] <= 6,
        ensures
            *final(self) == old(self).with_legal_moves(),
    {
        let ghost heights = self.col_cur_height@;
        let mut slots: [usize; 7] = [7;7];
        let mut n: usize = 0;
        for i in 0usize..7
            invariant
                heights == self.col_cur_height@,
                n == open_cols(heights, i as int).len(),
                n <= i,
                forall|j: int| 0 <= j < n ==> #[trigger] slots@[j] == open_cols(heights, i as int)[j].col,
                forall|j: int| n <= j < 7 ==> #[trigger] slots@[j] == 7,
        {
            if !self.is_col_full(i) {
                slots[n] = i;
                n = n + 1;
            }
        }
        self.legal_cols = slots;
        self.legal_count = n;
        proof {
            lemma_usize_array_of(legal_slots(heights));
            assert(slots =~= usize_array_of(legal_slots(heights)));
        }
    }

    /// Returns the piece at the given position.
    pub fn piece_at(&self, col: usize, height: usize) -> (r: ConnectFourPiece)
        requires
            in_range(col as int, height as int),
        ensures
            r == cf_at(self.cells(), col as int, height as int),
    {
        self.board[height * GAME_WIDTH + col]
    }

    /// Sets the piece at the given location.
    /// Does NOT refresh state-based values, such as piece_count or game_result.
    fn set_piece(&mut self, col: usize, height: usize, piece: ConnectFourPiece)
        requires
            in_range(col as int, height as int),
        ensures
            *final(self) == (Self {
                board: spec_array_update(old(self).board, cf_index(col as int, height as int), piece),
                ..*old(self)
            }),
    {
        self.board[height * GAME_WIDTH + col] = piece;
    }

    /// The height of the given column. E.g., an empty column has height 0.
    pub fn col_height(&self, col: usize) -> (r: usize)
        requires
            col < GAME_WIDTH,
        ensures
            r == self.heights()[col as int],
    {
        self.col_cur_height[col]
    }

    /// True if the column is full (has no room left for other pieces).
    pub fn is_col_full(&self, col: usize) -> (r: bool)
        requires
            col < GAME_WIDTH,
        ensures
            r == (self.heights()[col as int] >= 6),
    {
        self.col_height(col) >= GAME_HEIGHT
    }

    /// Increment the cached column height.
    fn increment_col(&mut self, col: usize)
        requires
            col < GAME_WIDTH,
            old(self).col_cur_height@[col as int] < 6,
        ensures
            *final(self) == (Self {
                col_cur_height: spec_array_update(
                    old(self).col_cur_height,
                    col as int,
                    (old(self).col_cur_height@[col as int] + 1) as usize,
                ),
                ..*old(self)
            }),
    {
        self.col_cur_height[col] = self.col_cur_height[col] + 1;
    }

    /// Count one more piece on the board.
    fn increment_piece_count(&mut self)
        requires
            old(self).piece_count < 42,
        ensures
            *final(self) == (Self { piece_count: (old(self).piece_count + 1) as usize, ..*old(self) }),
    {
        self.piece_count = self.piece_count + 1;
    }

    /// A full board ends the game in a tie.
    fn update_end_game_result(&mut self)
        ensures
            *final(self) == (Self {
                game_result: if old(self).piece_count >= 42 {
                    Some(GameResult::Tie)
                } else {
                    old(self).game_result
                },
                ..*old(self)
            }),
    {
        if self.piece_count >= GAME_HEIGHT * GAME_WIDTH {
            self.game_result = Some(GameResult::Tie);
        }
    }

    /// The number of consecutive pieces equal to `color` along (dc, dh)
    /// from (x, y), not counting (x, y).
    fn count_same(&self, x: usize, y: usize, color: ConnectFourPiece, dc: i32, dh: i32) -> (r: usize)
        requires
            in_range(x as int, y as int),
            -1 <= dc <= 1,
            -1 <= dh <= 1,
            !(dc == 0 && dh == 0),
        ensures
            r == same_from(self.cells(), x as int, y as int, color, dc as int, dh as int, 1),
            r <= 6,
    {
        let ghost b = self.cells();
        let mut run: usize = 0;
        let mut i: i32 = 1;
        let mut col: i32 = x as i32 + dc;
        let mut height: i32 = y as i32 + dh;
        loop
            invariant
                in_range(x as int, y as int),
                -1 <= dc <= 1,
                -1 <= dh <= 1,
                !(dc == 0 && dh == 0),
                b == self.cells(),
                1 <= i <= 7,
                run == i - 1,
                col == x + cf_step(dc as int, i as int),
                height == y + cf_step(dh as int, i as int),
                same_from(b, x as int, y as int, color, dc as int, dh as int, 1) == run + same_from(
                    b,
                    x as int,
                    y as int,
                    color,
                    dc as int,
                    dh as int,
                    i as int,
                ),
            decreases 7 - i,
        {
            if col < 0 || height < 0 || !is_in_range(col as usize, height as usize) {
                assert(same_from(b, x as int, y as int, color, dc as int, dh as int, i as int) == 0);
                return run;
            }
            if self.piece_at(col as usize, height as usize) == color {
                assert(i < 7);
                assert(same_from(b, x as int, y as int, color, dc as int, dh as int, i as int) == 1
                    + same_from(b, x as int, y as int, color, dc as int, dh as int, i + 1));
                run = run + 1;
                i = i + 1;
                col = col + dc;
                height = height + dh;
            } else {
                // The single-color run has ended, so stop traversing.
                assert(same_from(b, x as int, y as int, color, dc as int, dh as int, i as int) == 0);
                return run;
            }
        }
    }

    /// The length of the single-color line through (x, y) along (dc, dh),
    /// counting (x, y) itself and both directions.
    fn line_length(&self, x: usize, y: usize, dc: i32, dh: i32) -> (r: usize)
        requires
            in_range(x as int, y as int),
            -1 <= dc <= 1,
            -1 <= dh <= 1,
            !(dc == 0 && dh == 0),
        ensures
            r == line_len(self.cells(), x as int, y as int, dc as int, dh as int),
    {
        let origin_color = self.piece_at(x, y);
        // Traverse the direction backwards and forwards.
        let back = self.count_same(x, y, origin_color, -dc, -dh);
        let forth = self.count_same(x, y, origin_color, dc, dh);
        1 + back + forth
    }

    /// True if the piece at the position is part of four (or more) pieces
    /// of its color in a row, in any direction.
    pub fn is_pos_four_in_a_row(&self, x: usize, y: usize) -> (r: bool)
        requires
            in_range(x as int, y as int),
        ensures
            r == four_in_a_row(self.cells(), x as int, y as int),
    {
        if self.piece_at(x, y) == ConnectFourPiece::Empty {
            return false;
        }
        let ghost b = self.cells();
        for t in 0usize..9
            invariant
                in_range(x as int, y as int),
                b == self.cells(),
                cf_at(b, x as int, y as int) != ConnectFourPiece::Empty,
                !four_upto(b, x as int, y as int, t as int),
        {
            let col_dir = (t / 3) as i32 - 1;
            let height_dir = (t % 3) as i32 - 1;
            assert(cf_dir_value((t as int) / 3) == col_dir);
            assert(cf_dir_value((t as int) % 3) == height_dir);
            if !(col_dir == 0 && height_dir == 0) {
                let dir_run_len = self.line_length(x, y, col_dir, height_dir);
                if dir_run_len >= 4 {
                    assert(four_upto(b, x as int, y as int, t + 1));
                    proof {
                        lemma_four_upto_mono(b, x as int, y as int, t + 1, 9);
                    }
                    return true;
                }
            }
        }
        false
    }

    /// "Drop" a piece at the given column. The piece "falls" from the top
    /// and stops at the first position that is above another piece.
    pub fn drop_piece(&mut self, col: usize, piece: ConnectFourPiece)
        requires
            old(self).counts_ok(),
            col < GAME_WIDTH,
            old(self).heights()[col as int] < 6,
        ensures
            *final(self) == old(self).model_dropped(col as int, piece),
            final(self).inv(),
            final(self).counts_ok(),
            cf_at(final(self).cells(), col as int, old(self).heights()[col as int] as int) == piece,
            forall|c: int, h: int|
                in_range(c, h) && !(c == col && h == old(self).heights()[col as int]) ==> #[trigger] cf_at(
                    final(self).cells(),
                    c,
                    h,
                ) == cf_at(old(self).cells(), c, h),
            final(self).heights() == old(self).heights().update(
                col as int,
                (old(self).heights()[col as int] + 1) as usize,
            ),
            final(self).count() == old(self).count() + 1,
            final(self).turn() == old(self).turn(),
            final(self).result() == result_after_drop(
                final(self).cells(),
                col as int,
                old(self).heights()[col as int] as int,
                piece,
                old(self).count() + 1,
                old(self).result(),
            ),
    {
        let piece_height = self.col_height(col);
        proof {
            lemma_sum_short(self.col_cur_height@, 7, col as int);
            lemma_sum_update(self.col_cur_height@, 7, col as int, (piece_height + 1) as usize);
        }
        self.set_piece(col, piece_height, piece);
        self.increment_col(col);
        if self.is_pos_four_in_a_row(col, piece_height) {
            self.game_result = match piece {
                ConnectFourPiece::Black => Some(GameResult::BlackWins),
                ConnectFourPiece::Red => Some(GameResult::WhiteWins),
                ConnectFourPiece::Empty => {
                    // An empty position is never part of a line.
                    assert(false);
                    Some(GameResult::WhiteWins)
                },
            };
        }
        self.update_legal_moves();
        self.increment_piece_count();
        self.update_end_game_result();
        proof {
            lemma_open_cols_len(self.col_cur_height@, 7);
            assert(self.col_cur_height@ == spec_array_update(
                old(self).col_cur_height,
                col as int,
                (piece_height + 1) as usize,
            )@);
            old(self).lemma_dropped(col as int, piece);
        }
    }

    /// The text of the board, one row per line from the top, with the
    /// column numbers underneath.
    pub fn board_string(&self) -> (r: String)
        ensures
            r@ == cf_board_text(self.cells()),
    {
        let mut result = String::new();
        let mut k: usize = 0;
        while k < GAME_HEIGHT
            invariant
                k <= 6,
                result@ == cf_rows_text(self.cells(), k as int),
            decreases 6 - k,
        {
            let height = GAME_HEIGHT - 1 - k;
            let ghost start = result@;
            push_char(&mut result, '|');
            for col in 0usize..7
                invariant
                    height < 6,
                    result@ == start + seq!['|'] + cf_cells_text(self.cells(), height as int, col as int),
            {
                let piece = self.piece_at(col, height);
                push_char(&mut result, piece.symbol());
                push_char(&mut result, '|');
            }
            push_char(&mut result, '\n');
            k = k + 1;
        }
        let ghost start = result@;
        push_char(&mut result, ' ');
        for col in 0usize..7
            invariant
                result@ == start + seq![' '] + cf_labels(col as int),
        {
            let d = if col == 0 {
                '0'
            } else if col == 1 {
                '1'
            } else if col == 2 {
                '2'
            } else if col == 3 {
                '3'
            } else if col == 4 {
                '4'
            } else if col == 5 {
                '5'
            } else {
                '6'
            };
            push_char(&mut result, d);
            push_char(&mut result, ' ');
        }
        result
    }
}

/// A line found among the first `t` directions is found among more.
pub proof fn lemma_four_upto_mono(b: Seq<ConnectFourPiece>, x: int, y: int, t: int, u: int)
    requires
        t <= u,
        four_upto(b, x, y, t),
    ensures
        four_upto(b, x, y, u),
    decreases u - t,
{
    if t < u {
        lemma_four_upto_mono(b, x, y, t, u - 1);
    }
}

/// True if the cell `i` steps from (x0, y0) along (dc, dh) is on the board
/// and holds `p`.
pub open spec fn run_cell(b: Seq<ConnectFourPiece>, x0: int, y0: int, dc: int, dh: int, p: ConnectFourPiece, i: int) -> bool {
    in_range(x0 + cf_step(dc, i), y0 + cf_step(dh, i)) && cf_at(b, x0 + cf_step(dc, i), y0 + cf_step(dh, i)) == p
}

/// True if the four cells from (x0, y0) along (dc, dh) are on the board and
/// all hold `p`.
pub open spec fn run_of_four(b: Seq<ConnectFourPiece>, x0: int, y0: int, dc: int, dh: int, p: ConnectFourPiece) -> bool {
    forall|i: int| 0 <= i < 4 ==> #[trigger] run_cell(b, x0, y0, dc, dh, p, i)
}

/// True if (x, y) is the `m`-th cell of four cells along (dc, dh) that all
/// hold `p`.
pub open spec fn four_through(
    b: Seq<ConnectFourPiece>,
    x: int,
    y: int,
    dc: int,
    dh: int,
    m: int,
    p: ConnectFourPiece,
) -> bool {
    run_of_four(b, x - cf_step(dc, m), y - cf_step(dh, m), dc, dh, p)
}

/// True if (dc, dh) is one of the eight directions on the board.
pub open spec fn is_direction(dc: int, dh: int) -> bool {
    -1 <= dc <= 1 && -1 <= dh <= 1 && !(dc == 0 && dh == 0)
}

/// Cells `i` to `i + n - 1` steps away along (dc, dh) that hold `color`
/// make a run of at least `n`.
proof fn lemma_same_from_at_least(
    b: Seq<ConnectFourPiece>,
    x: int,
    y: int,
    color: ConnectFourPiece,
    dc: int,
    dh: int,
    i: int,
    n: int,
)
    requires
        1 <= i,
        0 <= n,
        i + n <= 7,
        forall|k: int| i <= k < i + n ==> #[trigger] run_cell(b, x, y, dc, dh, color, k),
    ensures
        same_from(b, x, y, color, dc, dh, i) >= n,
    decreases n,
{
    if n > 0 {
        assert(run_cell(b, x, y, dc, dh, color, i));
        lemma_same_from_at_least(b, x, y, color, dc, dh, i + 1, n - 1);
    }
}

/// Every cell of a run counted by `same_from` holds `color`.
proof fn lemma_same_from_cells(
    b: Seq<ConnectFourPiece>,
    x: int,
    y: int,
    color: ConnectFourPiece,
    dc: int,
    dh: int,
    i: int,
    k: int,
)
    requires
        1 <= i <= k < i + same_from(b, x, y, color, dc, dh, i),
    ensures
        run_cell(b, x, y, dc, dh, color, k),
    decreases k - i,
{
    if k > i {
        lemma_same_from_cells(b, x, y, color, dc, dh, i + 1, k);
    }
}

/// A line of four through (x, y) found among the first `t` directions is
/// found in one of them.
proof fn lemma_four_upto_some(b: Seq<ConnectFourPiece>, x: int, y: int, t: int) -> (dir: (int, int))
    requires
        four_upto(b, x, y, t),
        t <= 9,
    ensures
        is_direction(dir.0, dir.1),
        line_len(b, x, y, dir.0, dir.1) >= 4,
    decreases t,
{
    let dc = cf_dir_value((t - 1) / 3);
    let dh = cf_dir_value((t - 1) % 3);
    if four_upto(b, x, y, t - 1) {
        lemma_four_upto_some(b, x, y, t - 1)
    } else {
        assert(0 <= (t - 1) / 3 <= 2 && 0 <= (t - 1) % 3 <= 2 && !((t - 1) / 3 == 1 && (t - 1) % 3 == 1)
            ==> is_direction(dc, dh));
        assert(0 <= (t - 1) / 3 <= 2 && 0 <= (t - 1) % 3 <= 2) by (nonlinear_arith)
            requires
                1 <= t <= 9,
        ;
        (dc, dh)
    }
}

/// Four pieces in a row decide the game: a non-empty piece is part of four
/// (or more) in a row exactly when it is one of four cells along some
/// direction, horizontal, vertical or diagonal, that all hold that piece.
pub proof fn lemma_four_in_a_row_iff_run(b: Seq<ConnectFourPiece>, x: int, y: int)
    requires
        in_range(x, y),
    ensures
        four_in_a_row(b, x, y) <==> cf_at(b, x, y) != ConnectFourPiece::Empty && exists|dc: int, dh: int, m: int|
            is_direction(dc, dh) && 0 <= m < 4 && #[trigger] four_through(b, x, y, dc, dh, m, cf_at(b, x, y)),
{
    let p = cf_at(b, x, y);
    if four_in_a_row(b, x, y) {
        let (dc, dh) = lemma_four_in_a_row_run(b, x, y);
        let m = choose|m: int| 0 <= m < 4 && four_through(b, x, y, dc, dh, m, p);
        assert(four_through(b, x, y, dc, dh, m, p));
    }
    if p != ConnectFourPiece::Empty && exists|dc: int, dh: int, m: int|
        is_direction(dc, dh) && 0 <= m < 4 && #[trigger] four_through(b, x, y, dc, dh, m, p) {
        let (dc, dh, m) = choose|dc: int, dh: int, m: int|
            is_direction(dc, dh) && 0 <= m < 4 && #[trigger] four_through(b, x, y, dc, dh, m, p);
        lemma_run_makes_four(b, x, y, dc, dh, m);
    }
}

/// Four cells along a direction that hold the same non-empty piece are
/// four in a row at each of them.
pub proof fn lemma_run_makes_four(b: Seq<ConnectFourPiece>, x: int, y: int, dc: int, dh: int, m: int)
    requires
        is_direction(dc, dh),
        0 <= m < 4,
        cf_at(b, x, y) != ConnectFourPiece::Empty,
        four_through(b, x, y, dc, dh, m, cf_at(b, x, y)),
    ensures
        four_in_a_row(b, x, y),
{
    let p = cf_at(b, x, y);
    let x0 = x - cf_step(dc, m);
    let y0 = y - cf_step(dh, m);
    assert forall|k: int| 1 <= k < 1 + (3 - m) implies #[trigger] run_cell(b, x, y, dc, dh, p, k) by {
        assert(run_cell(b, x0, y0, dc, dh, p, m + k));
    }
    lemma_same_from_at_least(b, x, y, p, dc, dh, 1, 3 - m);
    assert forall|k: int| 1 <= k < 1 + m implies #[trigger] run_cell(b, x, y, -dc, -dh, p, k) by {
        assert(run_cell(b, x0, y0, dc, dh, p, m - k));
    }
    lemma_same_from_at_least(b, x, y, p, -dc, -dh, 1, m);
    assert(line_len(b, x, y, dc, dh) >= 4);
    let t = 3 * (dc + 1) + (dh + 1) + 1;
    assert((t - 1) / 3 == dc + 1 && (t - 1) % 3 == dh + 1) by {
        if dc == -1 {
        } else if dc == 0 {
        } else {
        }
    }
    assert(four_upto(b, x, y, t));
    lemma_four_upto_mono(b, x, y, t, 9);
}

/// A piece that is four in a row lies on four cells along some direction
/// that all hold it.
proof fn lemma_four_in_a_row_run(b: Seq<ConnectFourPiece>, x: int, y: int) -> (dir: (int, int))
    requires
        in_range(x, y),
        four_in_a_row(b, x, y),
    ensures
        is_direction(dir.0, dir.1),
        exists|m: int| 0 <= m < 4 && #[trigger] four_through(b, x, y, dir.0, dir.1, m, cf_at(b, x, y)),
{
    let p = cf_at(b, x, y);
    let (dc, dh) = lemma_four_upto_some(b, x, y, 9);
    let back = same_from(b, x, y, p, -dc, -dh, 1);
    let forth = same_from(b, x, y, p, dc, dh, 1);
    let m: int = if back >= 3 {
        3
    } else {
        back as int
    };
    let x0 = x - cf_step(dc, m);
    let y0 = y - cf_step(dh, m);
    assert forall|i: int| 0 <= i < 4 implies #[trigger] run_cell(b, x0, y0, dc, dh, p, i) by {
        if i < m {
            lemma_same_from_cells(b, x, y, p, -dc, -dh, 1, m - i);
        } else if i > m {
            lemma_same_from_cells(b, x, y, p, dc, dh, 1, i - m);
        }
    }
    assert(four_through(b, x, y, dc, dh, m, p));
    (dc, dh)
}

impl ConnectFourState {
    /// The state after the current player drops a piece in the move's column.
    pub closed spec fn model_apply(&self, action: ConnectFourAction) -> Self {
        let piece = match self.player_turn {
            PlayerColor::Black => ConnectFourPiece::Black,
            PlayerColor::White => ConnectFourPiece::Red,
        };
        Self {
            player_turn: spec_opponent(self.player_turn),
            ..self.model_dropped(action.col as int, piece)
        }
    }

    /// What a move does: the current player's piece is dropped in the
    /// move's column, as `lemma_dropped` describes, and the turn passes to
    /// the opponent.
    pub proof fn lemma_apply(&self, action: ConnectFourAction)
        requires
            self.inv(),
            action.col < 7,
            self.heights()[action.col as int] < 6,
        ensures
            self.model_apply(action).inv(),
            self.model_apply(action).counts_ok(),
            cf_at(self.model_apply(action).cells(), action.col as int, self.heights()[action.col as int] as int)
                == player_piece(self.turn()),
            forall|c: int, h: int|
                in_range(c, h) && !(c == action.col && h == self.heights()[action.col as int]) ==> #[trigger] cf_at(
                    self.model_apply(action).cells(),
                    c,
                    h,
                ) == cf_at(self.cells(), c, h),
            self.model_apply(action).heights() == self.heights().update(
                action.col as int,
                (self.heights()[action.col as int] + 1) as usize,
            ),
            self.model_apply(action).count() == self.count() + 1,
            self.model_apply(action).turn() == spec_opponent(self.turn()),
            self.model_apply(action).result() == result_after_drop(
                self.model_apply(action).cells(),
                action.col as int,
                self.heights()[action.col as int] as int,
                player_piece(self.turn()),
                self.count() + 1,
                self.result(),
            ),
    {
        let piece = player_piece(self.turn());
        self.lemma_dropped(action.col as int, piece);
        let d = self.model_dropped(action.col as int, piece);
        let a = self.model_apply(action);
        assert(a.col_cur_height == d.col_cur_height && a.board == d.board && a.piece_count == d.piece_count
            && a.game_result == d.game_result && a.legal_cols == d.legal_cols && a.legal_count == d.legal_count);
    }

    /// The initial state: an empty board, all columns open, Black to play,
    /// no result, and consistent.
    pub proof fn lemma_initial()
        ensures
            Self::model_initial().inv(),
            Self::model_initial().counts_ok(),
            forall|c: int, h: int| in_range(c, h) ==> #[trigger] cf_at(Self::model_initial().cells(), c, h)
                == ConnectFourPiece::Empty,
            Self::model_initial().heights() == Seq::new(7, |i: int| 0usize),
            Self::model_initial().count() == 0,
            Self::model_initial().turn() == PlayerColor::Black,
            Self::model_initial().result() is None,
    {
        let n = Self::model_new();
        assert(n.col_cur_height@ =~= Seq::new(7, |i: int| 0usize));
        assert(sum_heights(n.col_cur_height@, 7) == 0) by {
            reveal_with_fuel(sum_heights, 8);
        }
        lemma_open_cols_len(n.col_cur_height@, 7);
        lemma_usize_array_of(legal_slots(n.col_cur_height@));
    }

    /// The initial state: an empty board, all columns open, Black to play.
    pub closed spec fn model_initial() -> Self {
        Self::model_new().with_legal_moves()
    }
}

impl GameState for ConnectFourState {
    type Move = ConnectFourAction;

    open spec fn wf(&self) -> bool {
        self.inv()
    }

    open spec fn spec_turn(&self) -> PlayerColor {
        self.turn()
    }

    open spec fn spec_legal_moves(&self, player: PlayerColor) -> Seq<ConnectFourAction> {
        open_cols(self.heights(), 7)
    }

    open spec fn spec_can_apply(&self, action: ConnectFourAction) -> bool {
        action.col < 7 && self.heights()[action.col as int] < 6
    }

    open spec fn spec_apply(&self, action: ConnectFourAction) -> Self {
        self.model_apply(action)
    }

    open spec fn spec_game_over(&self) -> bool {
        self.result() is Some
    }

    open spec fn spec_game_result(&self) -> Option<GameResult> {
        self.result()
    }

    open spec fn spec_has_score(&self) -> bool {
        false
    }

    open spec fn spec_score(&self, player: PlayerColor) -> nat {
        0
    }

    open spec fn spec_can_skip(&self) -> bool {
        false
    }

    open spec fn spec_skip(&self) -> Self {
        *self
    }

    /// The recorded result can be read from any state, a fresh board too.
    open spec fn spec_result_readable(&self) -> bool {
        true
    }

    open spec fn spec_initial() -> Self {
        Self::model_initial()
    }

    open spec fn spec_human_friendly(&self) -> Seq<char> {
        cf_board_text(self.cells())
    }

    open spec fn spec_remaining(&self) -> nat {
        (42 - self.count()) as nat
    }

    fn clone_state(&self) -> (r: Self) {
        *self
    }

    fn human_friendly(&self) -> (r: String) {
        self.board_string()
    }

    /// Sets the state to its initial, ready-to-play position.
    fn initialize_board(&mut self) {
        for i in 0usize..42
            invariant
                forall|j: int| 0 <= j < i ==> self.board@[j] == ConnectFourPiece::Empty,
        {
            self.board[i] = ConnectFourPiece::Empty;
        }
        for i in 0usize..7
            invariant
                forall|j: int| 0 <= j < i ==> self.col_cur_height@[j] == 0,
                forall|j: int| 0 <= j < 42 ==> self.board@[j] == ConnectFourPiece::Empty,
        {
            self.col_cur_height[i] = 0;
        }
        self.player_turn = PlayerColor::Black;
        self.legal_cols = [0;7];
        self.legal_count = 0;
        self.game_result = None;
        self.piece_count = 0;
        proof {
            assert(self.board =~= Self::model_new().board);
            assert(self.col_cur_height =~= Self::model_new().col_cur_height);
            assert(self.legal_cols =~= Self::model_new().legal_cols);
        }
        self.update_legal_moves();
    }

    fn initial_state() -> (r: Self) {
        let mut state = Self::new();
        state.update_legal_moves();
        state
    }

    /// The columns that still have room, left to right.
    fn legal_moves(&self, _player: PlayerColor) -> (r: Vec<ConnectFourAction>) {
        let mut moves: Vec<ConnectFourAction> = Vec::new();
        proof {
            lemma_usize_array_of(legal_slots(self.col_cur_height@));
            lemma_open_cols_len(self.col_cur_height@, 7);
        }
        for i in 0usize..self.legal_count
            invariant
                self.inv(),
                self.legal_count <= 7,
                self.legal_cols@ == legal_slots(self.col_cur_height@),
                self.legal_count == open_cols(self.col_cur_height@, 7).len(),
                moves@ == open_cols(self.col_cur_height@, 7).take(i as int),
        {
            moves.push(ConnectFourAction::new(self.legal_cols[i]));
            proof {
                assert(open_cols(self.col_cur_height@, 7).take(i + 1) =~= open_cols(
                    self.col_cur_height@,
                    7,
                ).take(i as int).push(open_cols(self.col_cur_height@, 7)[i as int]));
            }
        }
        proof {
            assert(open_cols(self.col_cur_height@, 7).take(self.legal_count as int) =~= open_cols(
                self.col_cur_height@,
                7,
            ));
        }
        moves
    }

    /// Drops the current player's piece (Black's or Red) in the move's
    /// column and passes the turn to the opponent.
    fn apply_move(&mut self, action: ConnectFourAction) {
        let col = action.col;
        let piece = match self.player_turn {
            PlayerColor::Black => ConnectFourPiece::Black,
            PlayerColor::White => ConnectFourPiece::Red,
        };
        let ghost dropped = old(self).model_dropped(col as int, piece);
        self.drop_piece(col, piece);
        self.player_turn = self.player_turn.opponent();
        proof {
            assert(dropped.player_turn == old(self).player_turn);
            assert(*self == Self { player_turn: spec_opponent(old(self).player_turn), ..dropped });
        }
    }

    fn current_player_turn(&self) -> (r: PlayerColor) {
        proof {
            assert(self.turn() == self.player_turn);
            assert(self.spec_turn() == self.turn());
        }
        self.player_turn
    }

    /// Connect four keeps no score.
    fn player_score(&self, _player: PlayerColor) -> (r: usize) {
        0
    }

    /// Skipping turns is not part of connect four.
    fn skip_turn(&mut self) {
    }

    fn is_game_over(&self) -> (r: bool) {
        self.game_result.is_some()
    }

    fn game_result(&self) -> (r: Option<GameResult>) {
        self.game_result
    }

    proof fn lemma_initial_wf() {
        let s = Self::model_initial();
        let n = Self::model_new();
        assert(n.col_cur_height@ =~= Seq::new(7, |i: int| 0usize));
        assert(sum_heights(n.col_cur_height@, 7) == 0) by {
            reveal_with_fuel(sum_heights, 8);
        }
        lemma_open_cols_len(n.col_cur_height@, 7);
        assert(s.col_cur_height == n.col_cur_height);
        assert(s.legal_cache_ok());
    }

    proof fn lemma_apply_wf(&self, action: ConnectFourAction) {
        let h = self.col_cur_height@;
        let col = action.col as int;
        lemma_sum_short(h, 7, col);
        lemma_sum_update(h, 7, col, (h[col] + 1) as usize);
        lemma_open_cols_len(h.update(col, (h[col] + 1) as usize), 7);
        lemma_usize_array_of(legal_slots(h.update(col, (h[col] + 1) as usize)));
    }

    proof fn lemma_playable(&self) {
        let h = self.col_cur_height@;
        lemma_sum_bound(h, 7);
        lemma_open_exists(h, 7);
        lemma_open_cols(h, 7);
        assert forall|i: int| 0 <= i < self.spec_legal_moves(self.spec_turn()).len() implies {
            &&& #[trigger] self.spec_can_apply(self.spec_legal_moves(self.spec_turn())[i])
            &&& self.spec_apply(self.spec_legal_moves(self.spec_turn())[i]).spec_remaining()
                < self.spec_remaining()
        } by {
            let m = open_cols(h, 7)[i];
            lemma_sum_short(h, 7, m.col as int);
        }
    }

    proof fn lemma_result_iff_over(&self) {
    }
}

} // verus!
