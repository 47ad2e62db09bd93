use vstd::prelude::*;
use vstd::array::{spec_array_fill_for_copy_type, spec_array_update};
use crate::game::{
    spec_opponent, spec_result_from_scores, result_from_scores, GameMove, GameResult, GameState,
    PlayerColor,
};
use crate::text::{decimal, push_char, push_decimal, push_str};

verus! {

/// The size of the board.
/// E.x., if this is 8, the Reversi board is 8x8 spaces large.
pub const BOARD_SIZE: usize = 8;

/// A Reversi piece, of one of the two colors.
#[derive(Copy, Clone, Debug, PartialEq, Eq, Structural)]
pub enum ReversiPiece {
    Black,
    White,
}

/// The piece of the other color.
pub open spec fn spec_opposite(piece: ReversiPiece) -> ReversiPiece {
    match piece {
        ReversiPiece::Black => ReversiPiece::White,
        ReversiPiece::White => ReversiPiece::Black,
    }
}

/// The piece played by `color`.
pub open spec fn spec_piece_of(color: PlayerColor) -> ReversiPiece {
    match color {
        PlayerColor::Black => ReversiPiece::Black,
        PlayerColor::White => ReversiPiece::White,
    }
}

/// Returns the piece of the other color.
pub fn opponent(piece: ReversiPiece) -> (r: ReversiPiece)
    ensures
        r == spec_opposite(piece),
{
    match piece {
        ReversiPiece::Black => ReversiPiece::White,
        ReversiPiece::White => ReversiPiece::Black,
    }
}

impl ReversiPiece {
    /// The piece played by the player of the given color.
    pub fn from_color(color: PlayerColor) -> (r: ReversiPiece)
        ensures
            r == spec_piece_of(color),
    {
        match color {
            PlayerColor::Black => ReversiPiece::Black,
            PlayerColor::White => ReversiPiece::White,
        }
    }
}

/// A position on the board. (0,0) is the bottom-left position.
#[derive(Copy, Clone, PartialEq, Eq, Debug, Structural)]
pub struct BoardPosition {
    pub col: usize,
    pub row: usize,
}

impl BoardPosition {
    pub fn new(col: usize, row: usize) -> (r: BoardPosition)
        ensures
            r.col == col,
            r.row == row,
    {
        Self { col, row }
    }

    pub fn col(&self) -> (r: usize)
        ensures
            r == self.col,
    {
        self.col
    }

    pub fn row(&self) -> (r: usize)
        ensures
            r == self.row,
    {
        self.row
    }
}

/// When traversing pieces on the board, a positive direction indicates
/// increasing values for col or row, a negative direction decreasing
/// values, and 0 no movement for col or row.
#[derive(Copy, Clone)]
pub struct Directions {
    pub col_dir: i32,
    pub row_dir: i32,
}

/// A single direction component: -1, 0 or 1.
pub open spec fn unit(d: int) -> bool {
    -1 <= d <= 1
}

/// A direction that moves: both components units, not both 0.
pub open spec fn valid_dir(dc: int, dr: int) -> bool {
    unit(dc) && unit(dr) && !(dc == 0 && dr == 0)
}

/// `k` steps along a direction component `d`.
pub open spec fn step(d: int, k: int) -> int {
    if d > 0 {
        k
    } else if d < 0 {
        -k
    } else {
        0
    }
}

/// A coordinate `p` converts to `i32`, and so does one step `d` from it.
pub open spec fn step_fits(p: int, d: int) -> bool {
    p <= i32::MAX && i32::MIN <= p + d <= i32::MAX
}

/// True if (c, r) lies on the board.
pub open spec fn on_board(c: int, r: int) -> bool {
    0 <= c < 8 && 0 <= r < 8
}

/// The index in the board array of (c, r): rows are stored top row first.
pub open spec fn board_index(c: int, r: int) -> int {
    (7 - r) * 8 + c
}

/// The column of board index `i`.
pub open spec fn index_col(i: int) -> int {
    i % 8
}

/// The row of board index `i`.
pub open spec fn index_row(i: int) -> int {
    7 - i / 8
}

/// The contents of the board `b` at (c, r).
pub open spec fn at(b: Seq<Option<ReversiPiece>>, c: int, r: int) -> Option<ReversiPiece> {
    b[board_index(c, r)]
}

/// The number of consecutive pieces of the opposite color of `piece`
/// found along (dc, dr) from (c, r), starting `k` steps away.
pub open spec fn run_from(
    b: Seq<Option<ReversiPiece>>,
    c: int,
    r: int,
    piece: ReversiPiece,
    dc: int,
    dr: int,
    k: int,
) -> nat
    decreases 8 - k,
{
    if k < 1 || k >= 8 {
        0
    } else if on_board(c + step(dc, k), r + step(dr, k)) && at(
        b,
        c + step(dc, k),
        r + step(dr, k),
    ) == Some(spec_opposite(piece)) {
        1 + run_from(b, c, r, piece, dc, dr, k + 1)
    } else {
        0
    }
}

/// The number of opposing pieces right next to (c, r) along (dc, dr).
pub open spec fn run_len(
    b: Seq<Option<ReversiPiece>>,
    c: int,
    r: int,
    piece: ReversiPiece,
    dc: int,
    dr: int,
) -> nat {
    run_from(b, c, r, piece, dc, dr, 1)
}

/// True if a `piece` at (c, r) traps opposing pieces along (dc, dr): a
/// run of at least one opposing piece ends with a piece of its own color.
pub open spec fn brackets(
    b: Seq<Option<ReversiPiece>>,
    c: int,
    r: int,
    piece: ReversiPiece,
    dc: int,
    dr: int,
) -> bool {
    let n = run_len(b, c, r, piece, dc, dr) as int;
    &&& valid_dir(dc, dr)
    &&& n >= 1
    &&& on_board(c + step(dc, n + 1), r + step(dr, n + 1))
    &&& at(b, c + step(dc, n + 1), r + step(dr, n + 1)) == Some(piece)
}

/// The position that ends the run of opposing pieces next to (c, r)
/// along (dc, dr).
pub open spec fn sibling_of(
    b: Seq<Option<ReversiPiece>>,
    c: int,
    r: int,
    piece: ReversiPiece,
    dc: int,
    dr: int,
) -> BoardPosition {
    let n = run_len(b, c, r, piece, dc, dr) as int;
    BoardPosition { col: (c + step(dc, n + 1)) as usize, row: (r + step(dr, n + 1)) as usize }
}

/// How many steps (qc, qr) lies from (c, r) along (dc, dr), if it lies on that ray.
pub open spec fn dist_along(c: int, r: int, dc: int, dr: int, qc: int, qr: int) -> int {
    if dc > 0 {
        qc - c
    } else if dc < 0 {
        c - qc
    } else if dr > 0 {
        qr - r
    } else {
        r - qr
    }
}

/// True if placing `piece` at (c, r) flips the piece at (qc, qr) along (dc, dr).
pub open spec fn flips_dir(
    b: Seq<Option<ReversiPiece>>,
    c: int,
    r: int,
    piece: ReversiPiece,
    dc: int,
    dr: int,
    qc: int,
    qr: int,
) -> bool {
    let k = dist_along(c, r, dc, dr, qc, qr);
    &&& brackets(b, c, r, piece, dc, dr)
    &&& 1 <= k <= run_len(b, c, r, piece, dc, dr)
    &&& qc == c + step(dc, k)
    &&& qr == r + step(dr, k)
}

/// The direction component of index `i` in the order 1, -1, 0.
pub open spec fn dir_value(i: int) -> int {
    if i == 0 {
        1
    } else if i == 1 {
        -1
    } else {
        0
    }
}

/// The column component of the `t`-th direction tried.
pub open spec fn dir_col(t: int) -> int {
    dir_value(t / 3)
}

/// The row component of the `t`-th direction tried.
pub open spec fn dir_row(t: int) -> int {
    dir_value(t % 3)
}

/// True if placing `piece` at (c, r) flips (qc, qr) along one of the first `t` directions.
pub open spec fn flips_upto(
    b: Seq<Option<ReversiPiece>>,
    c: int,
    r: int,
    piece: ReversiPiece,
    t: int,
    qc: int,
    qr: int,
) -> bool
    decreases t,
{
    if t <= 0 {
        false
    } else {
        flips_upto(b, c, r, piece, t - 1, qc, qr) || flips_dir(
            b,
            c,
            r,
            piece,
            dir_col(t - 1),
            dir_row(t - 1),
            qc,
            qr,
        )
    }
}

/// True if a `piece` at (c, r) traps opposing pieces along one of the first `t` directions.
pub open spec fn brackets_upto(
    b: Seq<Option<ReversiPiece>>,
    c: int,
    r: int,
    piece: ReversiPiece,
    t: int,
) -> bool
    decreases t,
{
    if t <= 0 {
        false
    } else {
        brackets_upto(b, c, r, piece, t - 1) || brackets(
            b,
            c,
            r,
            piece,
            dir_col(t - 1),
            dir_row(t - 1),
        )
    }
}

/// True if `piece` may be placed at (c, r): the position is on the board,
/// empty, and the placement traps opposing pieces in some direction.
pub open spec fn legal_at(b: Seq<Option<ReversiPiece>>, c: int, r: int, piece: ReversiPiece) -> bool {
    on_board(c, r) && at(b, c, r) is None && brackets_upto(b, c, r, piece, 9)
}

/// The board after `piece` is placed at (c, r): the position holds the
/// piece, every trapped opposing piece is flipped, all else stays.
pub open spec fn placed(b: Seq<Option<ReversiPiece>>, c: int, r: int, piece: ReversiPiece) -> Seq<
    Option<ReversiPiece>,
> {
    Seq::new(
        64,
        |i: int|
            if index_col(i) == c && index_row(i) == r {
                Some(piece)
            } else if flips_upto(b, c, r, piece, 9, index_col(i), index_row(i)) {
                Some(piece)
            } else {
                b[i]
            },
    )
}

/// A run of opposing pieces lies on the board and holds only opposing pieces.
pub proof fn lemma_run_cells(
    b: Seq<Option<ReversiPiece>>,
    c: int,
    r: int,
    piece: ReversiPiece,
    dc: int,
    dr: int,
    k: int,
    j: int,
)
    requires
        1 <= k <= j,
        j < k + run_from(b, c, r, piece, dc, dr, k),
    ensures
        on_board(c + step(dc, j), r + step(dr, j)),
        at(b, c + step(dc, j), r + step(dr, j)) == Some(spec_opposite(piece)),
    decreases j - k,
{
    if j > k {
        lemma_run_cells(b, c, r, piece, dc, dr, k + 1, j);
    }
}

/// A run is never longer than the board.
pub proof fn lemma_run_bound(
    b: Seq<Option<ReversiPiece>>,
    c: int,
    r: int,
    piece: ReversiPiece,
    dc: int,
    dr: int,
    k: int,
)
    requires
        1 <= k <= 8,
    ensures
        k + run_from(b, c, r, piece, dc, dr, k) <= 8,
    decreases 8 - k,
{
    if k < 8 {
        lemma_run_bound(b, c, r, piece, dc, dr, k + 1);
    }
}


/// The positions flipped so far while placing `piece` at (c, r): those
/// of the first `t` directions, and the first `k - 1` of the `t`-th.
pub open spec fn flipped_so_far(
    b: Seq<Option<ReversiPiece>>,
    c: int,
    r: int,
    piece: ReversiPiece,
    t: int,
    k: int,
    qc: int,
    qr: int,
) -> bool {
    let dc = dir_col(t);
    let dr = dir_row(t);
    let d = dist_along(c, r, dc, dr, qc, qr);
    ||| flips_upto(b, c, r, piece, t, qc, qr)
    ||| (brackets(b, c, r, piece, dc, dr) && 1 <= d < k && qc == c + step(dc, d) && qr == r + step(
        dr,
        d,
    ))
}

/// The board part way through placing `piece` at (c, r).
pub open spec fn board_so_far(
    b: Seq<Option<ReversiPiece>>,
    c: int,
    r: int,
    piece: ReversiPiece,
    t: int,
    k: int,
) -> Seq<Option<ReversiPiece>> {
    Seq::new(
        64,
        |i: int|
            if i == board_index(c, r) {
                Some(piece)
            } else if flipped_so_far(b, c, r, piece, t, k, index_col(i), index_row(i)) {
                Some(piece)
            } else {
                b[i]
            },
    )
}

/// True if the cell `j` steps from (c, r) along (dc, dr) is on the board
/// and holds `v`.
pub open spec fn holds_at(
    b: Seq<Option<ReversiPiece>>,
    c: int,
    r: int,
    dc: int,
    dr: int,
    j: int,
    v: Option<ReversiPiece>,
) -> bool {
    on_board(c + step(dc, j), r + step(dr, j)) && at(b, c + step(dc, j), r + step(dr, j)) == v
}

/// True if, going `n` steps from (c, r) along (dc, dr), the cells 1 to
/// `n - 1` steps away hold the opponent's pieces of `piece` and the cell `n`
/// steps away holds a `piece`: a line that a `piece` placed at (c, r)
/// closes.
pub open spec fn trap_line(
    b: Seq<Option<ReversiPiece>>,
    c: int,
    r: int,
    piece: ReversiPiece,
    dc: int,
    dr: int,
    n: int,
) -> bool {
    &&& forall|j: int| 1 <= j < n ==> #[trigger] holds_at(b, c, r, dc, dr, j, Some(spec_opposite(piece)))
    &&& holds_at(b, c, r, dc, dr, n, Some(piece))
}

/// True if the cell `k` steps from (c, r) along (dc, dr) lies inside a line
/// that a `piece` placed at (c, r) closes.
pub open spec fn trapped_at(
    b: Seq<Option<ReversiPiece>>,
    c: int,
    r: int,
    piece: ReversiPiece,
    dc: int,
    dr: int,
    k: int,
) -> bool {
    exists|n: int| k < n && #[trigger] trap_line(b, c, r, piece, dc, dr, n)
}

/// True if placing `piece` at (c, r) traps the piece at (qc, qr): it lies
/// `k >= 1` steps away along some direction, inside a line that the placed
/// piece closes.
pub open spec fn flipped_by(
    b: Seq<Option<ReversiPiece>>,
    c: int,
    r: int,
    piece: ReversiPiece,
    qc: int,
    qr: int,
) -> bool {
    exists|dc: int, dr: int, k: int|
        valid_dir(dc, dr) && 1 <= k && qc == c + step(dc, k) && qr == r + step(dr, k)
            && #[trigger] trapped_at(b, c, r, piece, dc, dr, k)
}

/// Opposing pieces from `k` steps on, up to a cell `n` steps away that is
/// not one, make a run of exactly `n - k`.
proof fn lemma_run_from_exact(
    b: Seq<Option<ReversiPiece>>,
    c: int,
    r: int,
    piece: ReversiPiece,
    dc: int,
    dr: int,
    k: int,
    n: int,
)
    requires
        valid_dir(dc, dr),
        on_board(c, r),
        1 <= k <= n,
        forall|j: int| k <= j < n ==> #[trigger] holds_at(b, c, r, dc, dr, j, Some(spec_opposite(piece))),
        !holds_at(b, c, r, dc, dr, n, Some(spec_opposite(piece))),
    ensures
        run_from(b, c, r, piece, dc, dr, k) == n - k,
    decreases n - k,
{
    if k < n {
        assert(holds_at(b, c, r, dc, dr, k, Some(spec_opposite(piece))));
        lemma_run_from_exact(b, c, r, piece, dc, dr, k + 1, n);
        if k >= 8 {
            lemma_far_off_board(c, r, dc, dr, k);
        }
    }
}

/// Along a moving direction no cell 8 or more steps away is on the board.
proof fn lemma_far_off_board(c: int, r: int, dc: int, dr: int, j: int)
    requires
        valid_dir(dc, dr),
        on_board(c, r),
        j >= 8,
    ensures
        !on_board(c + step(dc, j), r + step(dr, j)),
{
}

/// A `piece` at (c, r) traps opposing pieces along a direction exactly when
/// it closes a line of at least one opposing piece there.
pub proof fn lemma_brackets_trap(
    b: Seq<Option<ReversiPiece>>,
    c: int,
    r: int,
    piece: ReversiPiece,
    dc: int,
    dr: int,
)
    requires
        valid_dir(dc, dr),
        on_board(c, r),
    ensures
        brackets(b, c, r, piece, dc, dr) <==> exists|n: int| 2 <= n && #[trigger] trap_line(b, c, r, piece, dc, dr, n),
        brackets(b, c, r, piece, dc, dr) ==> trap_line(b, c, r, piece, dc, dr, run_len(b, c, r, piece, dc, dr) as int + 1),
        forall|n: int|
            #![trigger trap_line(b, c, r, piece, dc, dr, n)]
            2 <= n && trap_line(b, c, r, piece, dc, dr, n) ==> run_len(b, c, r, piece, dc, dr) == n - 1,
{
    let n0 = run_len(b, c, r, piece, dc, dr) as int;
    assert(spec_opposite(piece) != piece);
    assert forall|n: int|
        #![trigger trap_line(b, c, r, piece, dc, dr, n)]
        2 <= n && trap_line(b, c, r, piece, dc, dr, n) implies run_len(b, c, r, piece, dc, dr) == n - 1 by {
        lemma_run_from_exact(b, c, r, piece, dc, dr, 1, n);
    }
    if brackets(b, c, r, piece, dc, dr) {
        assert forall|j: int| 1 <= j < n0 + 1 implies #[trigger] holds_at(
            b,
            c,
            r,
            dc,
            dr,
            j,
            Some(spec_opposite(piece)),
        ) by {
            lemma_run_cells(b, c, r, piece, dc, dr, 1, j);
        }
        assert(trap_line(b, c, r, piece, dc, dr, n0 + 1));
    }
    if exists|n: int| 2 <= n && #[trigger] trap_line(b, c, r, piece, dc, dr, n) {
        let n = choose|n: int| 2 <= n && #[trigger] trap_line(b, c, r, piece, dc, dr, n);
        assert(n0 == n - 1);
        assert(n0 + 1 == n);
    }
}

/// Placing `piece` at (c, r) flips the piece `k >= 1` steps away along a
/// direction exactly when that piece lies inside a line the placed piece
/// closes.
pub proof fn lemma_flips_dir_trap(
    b: Seq<Option<ReversiPiece>>,
    c: int,
    r: int,
    piece: ReversiPiece,
    dc: int,
    dr: int,
    k: int,
)
    requires
        valid_dir(dc, dr),
        on_board(c, r),
        1 <= k,
    ensures
        flips_dir(b, c, r, piece, dc, dr, c + step(dc, k), r + step(dr, k)) <==> trapped_at(b, c, r, piece, dc, dr, k),
{
    lemma_brackets_trap(b, c, r, piece, dc, dr);
    assert(dist_along(c, r, dc, dr, c + step(dc, k), r + step(dr, k)) == k);
    let n0 = run_len(b, c, r, piece, dc, dr) as int;
    if flips_dir(b, c, r, piece, dc, dr, c + step(dc, k), r + step(dr, k)) {
        assert(trap_line(b, c, r, piece, dc, dr, n0 + 1));
    }
    if trapped_at(b, c, r, piece, dc, dr, k) {
        let n = choose|n: int| k < n && #[trigger] trap_line(b, c, r, piece, dc, dr, n);
        assert(2 <= n && trap_line(b, c, r, piece, dc, dr, n));
    }
}

/// The index among the directions tried of a moving direction.
pub open spec fn dir_index(dc: int, dr: int) -> int {
    (if dc == 1 { 0int } else if dc == -1 { 1int } else { 2int }) * 3 + (if dr == 1 { 0int } else if dr == -1 { 1int } else { 2int })
}

/// Every moving direction is among the first nine tried, at its index.
proof fn lemma_dir_index(dc: int, dr: int)
    requires
        valid_dir(dc, dr),
    ensures
        0 <= dir_index(dc, dr) < 9,
        dir_col(dir_index(dc, dr)) == dc,
        dir_row(dir_index(dc, dr)) == dr,
{
}

/// A position flipped along one of the first `t` directions is flipped
/// along some moving direction.
proof fn lemma_flips_upto_dir(
    b: Seq<Option<ReversiPiece>>,
    c: int,
    r: int,
    piece: ReversiPiece,
    t: int,
    qc: int,
    qr: int,
) -> (d: (int, int))
    requires
        flips_upto(b, c, r, piece, t, qc, qr),
    ensures
        flips_dir(b, c, r, piece, d.0, d.1, qc, qr),
    decreases t,
{
    if flips_upto(b, c, r, piece, t - 1, qc, qr) {
        lemma_flips_upto_dir(b, c, r, piece, t - 1, qc, qr)
    } else {
        (dir_col(t - 1), dir_row(t - 1))
    }
}

/// A position flipped along a moving direction is flipped along one of the
/// first `t` directions, once `t` passes that direction's index.
proof fn lemma_flips_upto_from_dir(
    b: Seq<Option<ReversiPiece>>,
    c: int,
    r: int,
    piece: ReversiPiece,
    dc: int,
    dr: int,
    t: int,
    qc: int,
    qr: int,
)
    requires
        valid_dir(dc, dr),
        dir_index(dc, dr) < t,
        flips_dir(b, c, r, piece, dc, dr, qc, qr),
    ensures
        flips_upto(b, c, r, piece, t, qc, qr),
    decreases t,
{
    lemma_dir_index(dc, dr);
    if t - 1 > dir_index(dc, dr) {
        lemma_flips_upto_from_dir(b, c, r, piece, dc, dr, t - 1, qc, qr);
    }
}

/// Placing `piece` at (c, r) puts it there, turns to `piece` exactly the
/// pieces that lie inside a line the placed piece closes (opposing pieces
/// all the way from the placed piece to another of its own), and leaves
/// every other cell as it was.
pub proof fn lemma_placed_flips(
    b: Seq<Option<ReversiPiece>>,
    c: int,
    r: int,
    piece: ReversiPiece,
    qc: int,
    qr: int,
)
    requires
        on_board(c, r),
        on_board(qc, qr),
    ensures
        at(placed(b, c, r, piece), qc, qr) == (if qc == c && qr == r {
            Some(piece)
        } else if flipped_by(b, c, r, piece, qc, qr) {
            Some(piece)
        } else {
            at(b, qc, qr)
        }),
{
    lemma_coords_index(qc, qr);
    if !(qc == c && qr == r) {
        if flips_upto(b, c, r, piece, 9, qc, qr) {
            let (dc, dr) = lemma_flips_upto_dir(b, c, r, piece, 9, qc, qr);
            let k = dist_along(c, r, dc, dr, qc, qr);
            lemma_flips_dir_trap(b, c, r, piece, dc, dr, k);
            assert(trapped_at(b, c, r, piece, dc, dr, k));
        }
        if flipped_by(b, c, r, piece, qc, qr) {
            let (dc, dr, k) = choose|dc: int, dr: int, k: int|
                valid_dir(dc, dr) && 1 <= k && qc == c + step(dc, k) && qr == r + step(dr, k)
                    && #[trigger] trapped_at(b, c, r, piece, dc, dr, k);
            lemma_flips_dir_trap(b, c, r, piece, dc, dr, k);
            lemma_dir_index(dc, dr);
            lemma_flips_upto_from_dir(b, c, r, piece, dc, dr, 9, qc, qr);
        }
    }
}

/// A `piece` may be placed at (c, r) exactly when the position is on the
/// board and empty and the piece would close a line of at least one
/// opposing piece along some direction.
pub proof fn lemma_legal_at_trap(b: Seq<Option<ReversiPiece>>, c: int, r: int, piece: ReversiPiece)
    ensures
        legal_at(b, c, r, piece) <==> on_board(c, r) && at(b, c, r) is None && exists|dc: int, dr: int, n: int|
            valid_dir(dc, dr) && 2 <= n && #[trigger] trap_line(b, c, r, piece, dc, dr, n),
{
    if on_board(c, r) {
        if brackets_upto(b, c, r, piece, 9) {
            let (dc, dr) = lemma_brackets_upto_dir(b, c, r, piece, 9);
            lemma_brackets_trap(b, c, r, piece, dc, dr);
            let n = choose|n: int| 2 <= n && #[trigger] trap_line(b, c, r, piece, dc, dr, n);
            assert(valid_dir(dc, dr) && trap_line(b, c, r, piece, dc, dr, n));
        }
        if exists|dc: int, dr: int, n: int| valid_dir(dc, dr) && 2 <= n && #[trigger] trap_line(b, c, r, piece, dc, dr, n) {
            let (dc, dr, n) = choose|dc: int, dr: int, n: int|
                valid_dir(dc, dr) && 2 <= n && #[trigger] trap_line(b, c, r, piece, dc, dr, n);
            lemma_brackets_trap(b, c, r, piece, dc, dr);
            lemma_dir_index(dc, dr);
            lemma_brackets_upto_from_dir(b, c, r, piece, dc, dr, 9);
        }
    }
}

/// Trapping along one of the first `t` directions is trapping along some
/// moving direction.
proof fn lemma_brackets_upto_dir(b: Seq<Option<ReversiPiece>>, c: int, r: int, piece: ReversiPiece, t: int) -> (d: (
    int,
    int,
))
    requires
        brackets_upto(b, c, r, piece, t),
    ensures
        valid_dir(d.0, d.1),
        brackets(b, c, r, piece, d.0, d.1),
    decreases t,
{
    if brackets_upto(b, c, r, piece, t - 1) {
        lemma_brackets_upto_dir(b, c, r, piece, t - 1)
    } else {
        (dir_col(t - 1), dir_row(t - 1))
    }
}

/// Trapping along a moving direction is trapping along one of the first
/// `t` directions, once `t` passes that direction's index.
proof fn lemma_brackets_upto_from_dir(
    b: Seq<Option<ReversiPiece>>,
    c: int,
    r: int,
    piece: ReversiPiece,
    dc: int,
    dr: int,
    t: int,
)
    requires
        valid_dir(dc, dr),
        dir_index(dc, dr) < t,
        brackets(b, c, r, piece, dc, dr),
    ensures
        brackets_upto(b, c, r, piece, t),
    decreases t,
{
    lemma_dir_index(dc, dr);
    if t - 1 > dir_index(dc, dr) {
        lemma_brackets_upto_from_dir(b, c, r, piece, dc, dr, t - 1);
    }
}

/// Board indices and on-board coordinates correspond one to one.
pub proof fn lemma_index_coords(i: int)
    requires
        0 <= i < 64,
    ensures
        on_board(index_col(i), index_row(i)),
        board_index(index_col(i), index_row(i)) == i,
{
}

/// Board indices and on-board coordinates correspond one to one.
pub proof fn lemma_coords_index(c: int, r: int)
    requires
        on_board(c, r),
    ensures
        0 <= board_index(c, r) < 64,
        index_col(board_index(c, r)) == c,
        index_row(board_index(c, r)) == r,
{
}

/// The number of empty cells of `s`.
pub open spec fn count_empty(s: Seq<Option<ReversiPiece>>) -> nat
    decreases s.len(),
{
    if s.len() == 0 {
        0
    } else {
        count_empty(s.drop_last()) + (if s.last() is None {
            1nat
        } else {
            0nat
        })
    }
}

/// The number of cells of `s` that hold `piece`.
pub open spec fn count_color(s: Seq<Option<ReversiPiece>>, piece: ReversiPiece) -> nat
    decreases s.len(),
{
    if s.len() == 0 {
        0
    } else {
        count_color(s.drop_last(), piece) + (if s.last() == Some(piece) {
            1nat
        } else {
            0nat
        })
    }
}

/// A count never exceeds the length.
pub proof fn lemma_count_color_bound(s: Seq<Option<ReversiPiece>>, piece: ReversiPiece)
    ensures
        count_color(s, piece) <= s.len(),
    decreases s.len(),
{
    if s.len() > 0 {
        lemma_count_color_bound(s.drop_last(), piece);
    }
}

/// Filling one empty cell, and changing others only between pieces,
/// leaves one empty cell fewer.
pub proof fn lemma_count_empty_fill(s1: Seq<Option<ReversiPiece>>, s2: Seq<Option<ReversiPiece>>, p: int)
    requires
        s1.len() == s2.len(),
        0 <= p < s1.len(),
        s1[p] is None,
        s2[p] is Some,
        forall|i: int| 0 <= i < s1.len() && i != p ==> (s1[i] is None <==> s2[i] is None),
    ensures
        count_empty(s2) + 1 == count_empty(s1),
    decreases s1.len(),
{
    let n = s1.len() - 1;
    if p == n {
        lemma_count_empty_same(s1.drop_last(), s2.drop_last());
    } else {
        lemma_count_empty_fill(s1.drop_last(), s2.drop_last(), p);
    }
}

/// Sequences with the same empty cells have the same number of them.
pub proof fn lemma_count_empty_same(s1: Seq<Option<ReversiPiece>>, s2: Seq<Option<ReversiPiece>>)
    requires
        s1.len() == s2.len(),
        forall|i: int| 0 <= i < s1.len() ==> (s1[i] is None <==> s2[i] is None),
    ensures
        count_empty(s2) == count_empty(s1),
    decreases s1.len(),
{
    if s1.len() > 0 {
        lemma_count_empty_same(s1.drop_last(), s2.drop_last());
    }
}


/// Trapping in one of the first `t` directions means trapping in one of
/// the first `u` for every `u` from `t` on.
pub proof fn lemma_brackets_upto_mono(
    b: Seq<Option<ReversiPiece>>,
    c: int,
    r: int,
    piece: ReversiPiece,
    t: int,
    u: int,
)
    requires
        t <= u,
        brackets_upto(b, c, r, piece, t),
    ensures
        brackets_upto(b, c, r, piece, u),
    decreases u - t,
{
    if t < u {
        lemma_brackets_upto_mono(b, c, r, piece, t, u - 1);
    }
}

/// Setting the `k`-th trapped piece of the `t`-th direction moves the
/// board one step further along.
pub proof fn lemma_board_so_far_step(
    b: Seq<Option<ReversiPiece>>,
    c: int,
    r: int,
    piece: ReversiPiece,
    t: int,
    k: int,
)
    requires
        on_board(c, r),
        0 <= t < 9,
        1 <= k,
        brackets(b, c, r, piece, dir_col(t), dir_row(t)),
        on_board(c + step(dir_col(t), k), r + step(dir_row(t), k)),
    ensures
        board_so_far(b, c, r, piece, t, k).update(
            board_index(c + step(dir_col(t), k), r + step(dir_row(t), k)),
            Some(piece),
        ) =~= board_so_far(b, c, r, piece, t, k + 1),
{
    let qc = c + step(dir_col(t), k);
    let qr = r + step(dir_row(t), k);
    lemma_coords_index(qc, qr);
    assert forall|i: int| 0 <= i < 64 implies board_so_far(b, c, r, piece, t, k).update(
        board_index(qc, qr),
        Some(piece),
    )[i] == board_so_far(b, c, r, piece, t, k + 1)[i] by {
        lemma_index_coords(i);
    }
}


/// A Reversi move: pass the turn, or place the current player's piece.
#[derive(Copy, Clone, PartialEq, Eq, Debug, Structural)]
pub enum ReversiPlayerAction {
    PassTurn,
    Move { position: BoardPosition },
}

impl GameMove for ReversiPlayerAction {
    open spec fn spec_is_forced_pass(&self) -> bool {
        *self is PassTurn
    }

    fn is_forced_pass(self) -> (r: bool) {
        match self {
            ReversiPlayerAction::PassTurn => true,
            _ => false,
        }
    }

    fn same_move(self, other: Self) -> (r: bool) {
        self == other
    }

    /// "(player passes turn)" for a pass, "(col, row)" for a placement.
    open spec fn spec_text(&self) -> Seq<char> {
        match *self {
            ReversiPlayerAction::PassTurn => "(player passes turn)"@,
            ReversiPlayerAction::Move { position } => "("@ + decimal(position.col as nat) + ", "@
                + decimal(position.row as nat) + ")"@,
        }
    }

    fn text(self) -> (r: String) {
        let mut r = String::new();
        match self {
            ReversiPlayerAction::PassTurn => push_str(&mut r, "(player passes turn)"),
            ReversiPlayerAction::Move { position } => {
                push_str(&mut r, "(");
                push_decimal(&mut r, position.col as u64);
                push_str(&mut r, ", ");
                push_decimal(&mut r, position.row as u64);
                push_str(&mut r, ")");
            },
        }
        r
    }
}

/// The legal placements of `piece` among the first `j` positions in scan
/// order (row by row from the bottom, left to right in a row).
pub open spec fn scan_placements(b: Seq<Option<ReversiPiece>>, piece: ReversiPiece, j: int) -> Seq<
    ReversiPlayerAction,
>
    decreases j,
{
    if j <= 0 {
        seq![]
    } else {
        let k = j - 1;
        scan_placements(b, piece, k) + if legal_at(b, k % 8, k / 8, piece) {
            seq![
                ReversiPlayerAction::Move {
                    position: BoardPosition { col: (k % 8) as usize, row: (k / 8) as usize },
                },
            ]
        } else {
            seq![]
        }
    }
}

/// True if `piece` has a legal placement somewhere on the board.
pub open spec fn has_placement(b: Seq<Option<ReversiPiece>>, piece: ReversiPiece) -> bool {
    scan_placements(b, piece, 64).len() > 0
}

/// The moves of `piece`: its legal placements, or passing when there is none.
pub open spec fn moves_of(b: Seq<Option<ReversiPiece>>, piece: ReversiPiece) -> Seq<ReversiPlayerAction> {
    if has_placement(b, piece) {
        scan_placements(b, piece, 64)
    } else {
        seq![ReversiPlayerAction::PassTurn]
    }
}

/// Every move found by the scan is a legal placement on the board.
pub proof fn lemma_scan_legal(b: Seq<Option<ReversiPiece>>, piece: ReversiPiece, j: int)
    requires
        0 <= j <= 64,
    ensures
        forall|i: int|
            0 <= i < scan_placements(b, piece, j).len() ==> {
                let m = #[trigger] scan_placements(b, piece, j)[i];
                &&& m is Move
                &&& legal_at(b, m->position.col as int, m->position.row as int, piece)
            },
    decreases j,
{
    if j > 0 {
        lemma_scan_legal(b, piece, j - 1);
        let k = j - 1;
        assert forall|i: int| 0 <= i < scan_placements(b, piece, j).len() implies {
            let m = #[trigger] scan_placements(b, piece, j)[i];
            &&& m is Move
            &&& legal_at(b, m->position.col as int, m->position.row as int, piece)
        } by {
            if i < scan_placements(b, piece, k).len() {
                assert(scan_placements(b, piece, j)[i] == scan_placements(b, piece, k)[i]);
            }
        }
    }
}

/// The character that shows a cell.
pub open spec fn cell_char(p: Option<ReversiPiece>) -> char {
    match p {
        Some(ReversiPiece::White) => 'O',
        Some(ReversiPiece::Black) => 'X',
        None => '-',
    }
}

/// The text of the first `n` cells of row `r`: each cell and a space.
pub open spec fn cells_text(b: Seq<Option<ReversiPiece>>, r: int, n: int) -> Seq<char>
    decreases n,
{
    if n <= 0 {
        seq![]
    } else {
        cells_text(b, r, n - 1) + seq![cell_char(at(b, n - 1, r)), ' ']
    }
}

/// The text of row `r`.
pub open spec fn row_line(b: Seq<Option<ReversiPiece>>, r: int) -> Seq<char> {
    seq!['|', ' '] + cells_text(b, r, 8) + seq!['\n']
}

/// The text of the top `k` rows.
pub open spec fn rows_text(b: Seq<Option<ReversiPiece>>, k: int) -> Seq<char>
    decreases k,
{
    if k <= 0 {
        seq![]
    } else {
        rows_text(b, k - 1) + row_line(b, 8 - k)
    }
}

/// `n` pairs of dashes.
pub open spec fn dashes(n: int) -> Seq<char>
    decreases n,
{
    if n <= 0 {
        seq![]
    } else {
        dashes(n - 1) + seq!['-', '-']
    }
}

/// The decimal digit of `d`.
pub open spec fn digit_char(d: int) -> char {
    if d == 0 {
        '0'
    } else if d == 1 {
        '1'
    } else if d == 2 {
        '2'
    } else if d == 3 {
        '3'
    } else if d == 4 {
        '4'
    } else if d == 5 {
        '5'
    } else if d == 6 {
        '6'
    } else if d == 7 {
        '7'
    } else if d == 8 {
        '8'
    } else {
        '9'
    }
}

/// The column labels of the first `n` columns, each followed by a space.
pub open spec fn col_labels(n: int) -> Seq<char>
    decreases n,
{
    if n <= 0 {
        seq![]
    } else {
        col_labels(n - 1) + seq![digit_char(n - 1), ' ']
    }
}

/// The text under the board: a line of dashes and the column labels.
pub open spec fn board_footer() -> Seq<char> {
    seq![' '] + dashes(8) + seq!['\n', ' ', ' '] + col_labels(8)
}

/// The human-friendly text of a board.
pub open spec fn board_text(b: Seq<Option<ReversiPiece>>) -> Seq<char> {
    seq!['\n'] + rows_text(b, 8) + board_footer()
}

/// The starting position: two pieces of each color in the center.
pub open spec fn initial_cells() -> Seq<Option<ReversiPiece>> {
    Seq::new(
        64,
        |i: int|
            if i == board_index(3, 3) || i == board_index(4, 4) {
                Some(ReversiPiece::Black)
            } else if i == board_index(3, 4) || i == board_index(4, 3) {
                Some(ReversiPiece::White)
            } else {
                None
            },
    )
}

/// The contents of `array_of(cells)` are `cells`.
pub proof fn lemma_array_of(cells: Seq<Option<ReversiPiece>>)
    requires
        cells.len() == 64,
    ensures
        array_of(cells)@ == cells,
{
    let a = spec_array_fill_for_copy_type::<Option<ReversiPiece>, 64>(None);
    lemma_array_from(a, cells, 64);
    assert(array_of(cells)@ =~= cells);
}

/// `array_from(a, cells, n)` holds `cells` before `n` and `a` from `n` on.
pub proof fn lemma_array_from(a: [Option<ReversiPiece>; 64], cells: Seq<Option<ReversiPiece>>, n: int)
    requires
        0 <= n <= 64,
        cells.len() == 64,
    ensures
        array_from(a, cells, n)@.len() == 64,
        forall|i: int| 0 <= i < n ==> #[trigger] array_from(a, cells, n)@[i] == cells[i],
        forall|i: int| n <= i < 64 ==> #[trigger] array_from(a, cells, n)@[i] == a@[i],
    decreases n,
{
    if n > 0 {
        lemma_array_from(a, cells, n - 1);
    }
}


/// Once the scan has found a placement, longer scans find it too.
pub proof fn lemma_scan_grows(b: Seq<Option<ReversiPiece>>, piece: ReversiPiece, j: int, u: int)
    requires
        j <= u,
        scan_placements(b, piece, j).len() > 0,
    ensures
        scan_placements(b, piece, u).len() > 0,
    decreases u - j,
{
    if j < u {
        lemma_scan_grows(b, piece, j, u - 1);
    }
}


/// A flipped position held an opposing piece.
pub proof fn lemma_flipped_was_opponent(
    b: Seq<Option<ReversiPiece>>,
    c: int,
    r: int,
    piece: ReversiPiece,
    t: int,
    qc: int,
    qr: int,
)
    requires
        flips_upto(b, c, r, piece, t, qc, qr),
    ensures
        on_board(qc, qr),
        at(b, qc, qr) == Some(spec_opposite(piece)),
    decreases t,
{
    if flips_upto(b, c, r, piece, t - 1, qc, qr) {
        lemma_flipped_was_opponent(b, c, r, piece, t - 1, qc, qr);
    } else {
        let dc = dir_col(t - 1);
        let dr = dir_row(t - 1);
        let k = dist_along(c, r, dc, dr, qc, qr);
        lemma_run_cells(b, c, r, piece, dc, dr, 1, k);
    }
}

/// Placing a piece on an empty position fills exactly that position:
/// flipped positions held pieces before and after.
pub proof fn lemma_placed_empty(b: Seq<Option<ReversiPiece>>, c: int, r: int, piece: ReversiPiece)
    requires
        b.len() == 64,
        on_board(c, r),
        at(b, c, r) is None,
    ensures
        count_empty(placed(b, c, r, piece)) + 1 == count_empty(b),
{
    let p = board_index(c, r);
    let s2 = placed(b, c, r, piece);
    assert forall|i: int| 0 <= i < 64 && i != p implies (b[i] is None <==> s2[i] is None) by {
        lemma_index_coords(i);
        if flips_upto(b, c, r, piece, 9, index_col(i), index_row(i)) {
            lemma_flipped_was_opponent(b, c, r, piece, 9, index_col(i), index_row(i));
        }
    }
    lemma_count_empty_fill(b, s2, p);
}

/// Iterates over the board positions along a direction from an origin,
/// not including the origin.
pub struct BoardDirectionIter {
    direction: Directions,
    board_size: usize,
    /// What position are we currently at?
    cursor: BoardPosition,
}

impl BoardDirectionIter {
    /// The position the iterator is at.
    pub closed spec fn cursor_at(&self) -> BoardPosition {
        self.cursor
    }

    /// The direction the iterator walks.
    pub closed spec fn direction_of(&self) -> (int, int) {
        (self.direction.col_dir as int, self.direction.row_dir as int)
    }

    /// The iterator is consistent: it walks an 8x8 board, and one step from
    /// where it is can be computed in `i32`.
    pub closed spec fn wf(&self) -> bool {
        &&& self.board_size == BOARD_SIZE
        &&& step_fits(self.cursor.col as int, self.direction.col_dir as int)
        &&& step_fits(self.cursor.row as int, self.direction.row_dir as int)
    }

    /// An iterator from `origin` along `direction`, which must move; the
    /// origin need not be on the board.
    pub fn new(origin: BoardPosition, direction: Directions) -> (r: Self)
        requires
            !(direction.col_dir == 0 && direction.row_dir == 0),
            step_fits(origin.col as int, direction.col_dir as int),
            step_fits(origin.row as int, direction.row_dir as int),
        ensures
            r.wf(),
            r.cursor_at() == origin,
            r.direction_of() == (direction.col_dir as int, direction.row_dir as int),
    {
        BoardDirectionIter { direction, board_size: BOARD_SIZE, cursor: origin }
    }

    /// The next position along the direction, or None when it would leave
    /// the board (in which case the iterator stays where it is).
    pub fn next(&mut self) -> (r: Option<BoardPosition>)
        requires
            old(self).wf(),
        ensures
            final(self).wf(),
            final(self).direction_of() == old(self).direction_of(),
            ({
                let (dc, dr) = old(self).direction_of();
                let nc = old(self).cursor_at().col + dc;
                let nr = old(self).cursor_at().row + dr;
                if on_board(nc, nr) {
                    &&& r == Some(BoardPosition { col: nc as usize, row: nr as usize })
                    &&& final(self).cursor_at() == r.unwrap()
                } else {
                    &&& r is None
                    &&& final(self).cursor_at() == old(self).cursor_at()
                }
            }),
    {
        let next_col = self.cursor.col as i32 + self.direction.col_dir;
        let next_row = self.cursor.row as i32 + self.direction.row_dir;
        if next_col < 0 || next_row < 0 {
            return None;
        }
        if next_col >= self.board_size as i32 || next_row >= self.board_size as i32 {
            return None;
        }
        self.cursor.col = next_col as usize;
        self.cursor.row = next_row as usize;
        let next_pos = BoardPosition::new(next_col as usize, next_row as usize);
        Some(next_pos)
    }
}

/// The placement of a given piece at a given position.
#[derive(Copy, Clone, Debug, PartialEq, Eq, Structural)]
pub struct ReversiMove {
    /// The piece to be placed at the given location.
    pub piece: ReversiPiece,
    /// The position at which to place the piece.
    pub position: BoardPosition,
}

/// The complete state of a Reversi game.
#[derive(Clone, Copy)]
pub struct ReversiState {
    /// The board, one cell per position, top row first.
    board: [Option<ReversiPiece>; 64],
    /// The player whose turn it currently is.
    current_player_turn: PlayerColor,
}

impl ReversiState {
    /// The board, cell by cell, in storage order.
    pub closed spec fn cells(&self) -> Seq<Option<ReversiPiece>> {
        self.board@
    }

    /// The piece at (c, r), or None if the position is empty.
    pub open spec fn cell(&self, c: int, r: int) -> Option<ReversiPiece> {
        at(self.cells(), c, r)
    }

    /// The player whose turn it is.
    pub closed spec fn turn(&self) -> PlayerColor {
        self.current_player_turn
    }

    /// The state with the given board and turn.
    pub closed spec fn from_parts(cells: Seq<Option<ReversiPiece>>, turn: PlayerColor) -> Self {
        ReversiState { board: array_of(cells), current_player_turn: turn }
    }

    /// An empty board with Black to play.
    pub fn new() -> (r: Self)
        ensures
            r.cells() == Seq::new(64, |i: int| None::<ReversiPiece>),
            r.turn() == PlayerColor::Black,
    {
        let board: [Option<ReversiPiece>; 64] = [None;64];
        let r = ReversiState { board, current_player_turn: PlayerColor::Black };
        assert(r.cells() =~= Seq::new(64, |i: int| None::<ReversiPiece>));
        r
    }

    fn transform_coords(position: BoardPosition) -> (r: (usize, usize))
        requires
            position.row < BOARD_SIZE,
        ensures
            r == (position.col, (7 - position.row) as usize),
    {
        (position.col, BOARD_SIZE - position.row - 1)
    }

    /// Given an (x,y) coord within range of the board, return the ReversiPiece
    /// present on that spot, or None if the position is empty.
    /// Note: (0,0) is the bottom-left position.
    pub fn get_piece(&self, position: BoardPosition) -> (r: Option<ReversiPiece>)
        requires
            position.col < BOARD_SIZE,
            position.row < BOARD_SIZE,
        ensures
            r == self.cell(position.col as int, position.row as int),
    {
        let (col_p, row_p) = Self::transform_coords(position);
        self.board[row_p * BOARD_SIZE + col_p]
    }

    /// Set the piece at the coordinates to the given piece.
    pub fn set_piece(&mut self, position: BoardPosition, piece: Option<ReversiPiece>)
        requires
            position.col < BOARD_SIZE,
            position.row < BOARD_SIZE,
        ensures
            final(self).cells() == old(self).cells().update(
                board_index(position.col as int, position.row as int),
                piece,
            ),
            final(self).turn() == old(self).turn(),
    {
        let (col_p, row_p) = Self::transform_coords(position);
        self.board[row_p * BOARD_SIZE + col_p] = piece;
    }

    /// Turn the piece at the position over to the other color.
    pub fn flip_piece(&mut self, position: BoardPosition)
        requires
            position.col < BOARD_SIZE,
            position.row < BOARD_SIZE,
            old(self).cell(position.col as int, position.row as int) is Some,
        ensures
            final(self).cells() == old(self).cells().update(
                board_index(position.col as int, position.row as int),
                Some(spec_opposite(old(self).cell(position.col as int, position.row as int).unwrap())),
            ),
            final(self).cell(position.col as int, position.row as int) == Some(
                spec_opposite(old(self).cell(position.col as int, position.row as int).unwrap()),
            ),
            forall|c: int, r: int|
                on_board(c, r) && !(c == position.col && r == position.row) ==> #[trigger] final(self).cell(c, r)
                    == old(self).cell(c, r),
            final(self).turn() == old(self).turn(),
    {
        let before_flip = self.get_piece(position);
        let flipped = match before_flip {
            Some(ReversiPiece::White) => Some(ReversiPiece::Black),
            Some(ReversiPiece::Black) => Some(ReversiPiece::White),
            None => None,
        };
        self.set_piece(position, flipped);
    }

    /// The number of characters of the human-friendly text.
    pub fn friendly_print_size() -> (r: usize)
        ensures
            r == 189,
    {
        189
    }

    /// True if the position lies on the board.
    pub fn within_board_bounds(position: BoardPosition) -> (r: bool)
        ensures
            r == on_board(position.col as int, position.row as int),
    {
        position.col < BOARD_SIZE && position.row < BOARD_SIZE
    }


    /// The `i`-th direction component tried: 1, -1, then 0.
    fn dir_value_of(i: usize) -> (r: i32)
        requires
            i < 3,
        ensures
            r == dir_value(i as int),
    {
        if i == 0 {
            1
        } else if i == 1 {
            -1
        } else {
            0
        }
    }

    /// True if `piece` placed at the position would trap opposing pieces
    /// in some direction.
    pub fn traps_any(&self, position: BoardPosition, piece: ReversiPiece) -> (r: bool)
        requires
            on_board(position.col as int, position.row as int),
        ensures
            r == brackets_upto(self.cells(), position.col as int, position.row as int, piece, 9),
    {
        let ghost b = self.cells();
        let ghost c = position.col as int;
        let ghost rr = position.row as int;
        for ci in 0usize..3
            invariant
                on_board(c, rr),
                c == position.col,
                rr == position.row,
                b == self.cells(),
                !brackets_upto(b, c, rr, piece, 3 * ci as int),
        {
            for ri in 0usize..3
                invariant
                    on_board(c, rr),
                    c == position.col,
                    rr == position.row,
                    b == self.cells(),
                    ci < 3,
                    !brackets_upto(b, c, rr, piece, 3 * ci + ri as int),
            {
                let directions = Directions {
                    col_dir: Self::dir_value_of(ci),
                    row_dir: Self::dir_value_of(ri),
                };
                let t = 3 * ci + ri;
                assert(dir_col(t as int) == dir_value(ci as int));
                assert(dir_row(t as int) == dir_value(ri as int));
                if self.find_sibling_piece_pos(position, piece, directions).is_some() {
                    assert(brackets_upto(b, c, rr, piece, t + 1));
                    assert forall|u: int| t + 1 <= u <= 9 implies brackets_upto(
                        b,
                        c,
                        rr,
                        piece,
                        u,
                    ) by {
                        lemma_brackets_upto_mono(b, c, rr, piece, t + 1, u);
                    }
                    return true;
                }
            }
        }
        false
    }

    /// True if `piece` may be placed at the position: it is on the board,
    /// empty, and traps opposing pieces in some direction.
    pub fn is_legal_placement(&self, position: BoardPosition, piece: ReversiPiece) -> (r: bool)
        ensures
            r == legal_at(self.cells(), position.col as int, position.row as int, piece),
    {
        if !Self::within_board_bounds(position) {
            return false;
        }
        if self.get_piece(position).is_some() {
            return false;
        }
        self.traps_any(position, piece)
    }

    /// Places the move's piece at its position, and flips all opposing
    /// pieces in any direction that terminates with another one of the
    /// player's pieces.
    ///
    /// Example:
    ///    O X X X *
    ///          X X
    ///        O   X
    ///            X
    /// Placing a white piece ('O') at the position marked with the * will
    /// result in the following state:
    ///    O O O O O
    ///          O X
    ///        O   X
    ///            X
    pub fn apply_move(&mut self, action: ReversiMove)
        requires
            on_board(action.position.col as int, action.position.row as int),
            old(self).cell(action.position.col as int, action.position.row as int) is None,
        ensures
            final(self).cells() == placed(
                old(self).cells(),
                action.position.col as int,
                action.position.row as int,
                action.piece,
            ),
            final(self).turn() == old(self).turn(),
    {
        let ghost b = self.cells();
        let origin = action.position;
        let piece = action.piece;
        let ghost c = origin.col as int;
        let ghost rr = origin.row as int;
        // For every direction, find the piece (if any) that closes a run
        // of opposing pieces starting next to the origin.
        let mut siblings: Vec<Option<BoardPosition>> = Vec::new();
        for ci in 0usize..3
            invariant
                on_board(c, rr),
                c == origin.col,
                rr == origin.row,
                b == self.cells(),
                siblings.len() == 3 * ci,
                forall|t: int|
                    0 <= t < siblings.len() ==> {
                        &&& (#[trigger] siblings@[t] is Some <==> brackets(
                            b,
                            c,
                            rr,
                            piece,
                            dir_col(t),
                            dir_row(t),
                        ))
                        &&& siblings@[t] is Some ==> siblings@[t] == Some(
                            sibling_of(b, c, rr, piece, dir_col(t), dir_row(t)),
                        )
                    },
        {
            for ri in 0usize..3
                invariant
                    on_board(c, rr),
                    c == origin.col,
                    rr == origin.row,
                    b == self.cells(),
                    ci < 3,
                    siblings.len() == 3 * ci + ri,
                    forall|t: int|
                        0 <= t < siblings.len() ==> {
                            &&& (#[trigger] siblings@[t] is Some <==> brackets(
                                b,
                                c,
                                rr,
                                piece,
                                dir_col(t),
                                dir_row(t),
                            ))
                            &&& siblings@[t] is Some ==> siblings@[t] == Some(
                                sibling_of(b, c, rr, piece, dir_col(t), dir_row(t)),
                            )
                        },
            {
                let directions = Directions {
                    col_dir: Self::dir_value_of(ci),
                    row_dir: Self::dir_value_of(ri),
                };
                let t = 3 * ci + ri;
                assert(dir_col(t as int) == dir_value(ci as int));
                assert(dir_row(t as int) == dir_value(ri as int));
                let sibling = self.find_sibling_piece_pos(origin, piece, directions);
                siblings.push(sibling);
            }
        }
        self.set_piece(origin, Some(piece));
        proof {
            lemma_coords_index(c, rr);
            assert(self.cells() =~= board_so_far(b, c, rr, piece, 0, 1));
        }
        // Flip the trapped pieces of every direction that has a sibling.
        for t in 0usize..9
            invariant
                on_board(c, rr),
                c == origin.col,
                rr == origin.row,
                b[board_index(c, rr)] is None,
                self.cells() == board_so_far(b, c, rr, piece, t as int, 1),
                self.turn() == old(self).turn(),
                b == old(self).cells(),
                siblings.len() == 9,
                forall|u: int|
                    0 <= u < 9 ==> {
                        &&& (#[trigger] siblings@[u] is Some <==> brackets(
                            b,
                            c,
                            rr,
                            piece,
                            dir_col(u),
                            dir_row(u),
                        ))
                        &&& siblings@[u] is Some ==> siblings@[u] == Some(
                            sibling_of(b, c, rr, piece, dir_col(u), dir_row(u)),
                        )
                    },
        {
            self.flip_run(origin, piece, t, siblings[t], Ghost(b));
        }
        proof {
            assert(self.cells() =~= placed(b, c, rr, piece));
        }
    }



    /// The legal placements of `piece`, in scan order.
    fn legal_placements(&self, piece: ReversiPiece) -> (r: Vec<ReversiPlayerAction>)
        ensures
            r@ == scan_placements(self.cells(), piece, 64),
    {
        let mut actions: Vec<ReversiPlayerAction> = Vec::new();
        for row in 0usize..8
            invariant
                actions@ == scan_placements(self.cells(), piece, 8 * row as int),
        {
            for col in 0usize..8
                invariant
                    row < 8,
                    actions@ == scan_placements(self.cells(), piece, 8 * row + col as int),
            {
                let position = BoardPosition::new(col, row);
                assert(((8 * row + col) as int) % 8 == col as int);
                assert(((8 * row + col) as int) / 8 == row as int);
                if self.is_legal_placement(position, piece) {
                    actions.push(ReversiPlayerAction::Move { position });
                }
            }
        }
        actions
    }

    /// True if `piece` has a legal placement somewhere on the board.
    pub fn has_legal_placement(&self, piece: ReversiPiece) -> (r: bool)
        ensures
            r == has_placement(self.cells(), piece),
    {
        for row in 0usize..8
            invariant
                scan_placements(self.cells(), piece, 8 * row as int).len() == 0,
        {
            for col in 0usize..8
                invariant
                    row < 8,
                    scan_placements(self.cells(), piece, 8 * row + col as int).len() == 0,
            {
                let position = BoardPosition::new(col, row);
                assert(((8 * row + col) as int) % 8 == col as int);
                assert(((8 * row + col) as int) / 8 == row as int);
                if self.is_legal_placement(position, piece) {
                    proof {
                        assert(scan_placements(self.cells(), piece, 8 * row + col + 1).len() > 0);
                        lemma_scan_grows(self.cells(), piece, (8 * row + col + 1) as int, 64);
                    }
                    return true;
                }
            }
        }
        false
    }

    /// The number of pieces of the given color on the board.
    pub fn count_pieces(&self, piece: ReversiPiece) -> (r: usize)
        ensures
            r == count_color(self.cells(), piece),
    {
        let mut count: usize = 0;
        for i in 0usize..64
            invariant
                count == count_color(self.cells().take(i as int), piece),
                count <= i,
        {
            proof {
                assert(self.cells().take(i + 1).drop_last() =~= self.cells().take(i as int));
            }
            if self.board[i] == Some(piece) {
                count = count + 1;
            }
        }
        proof {
            assert(self.cells().take(64) =~= self.cells());
        }
        count
    }

    /// The character that shows a piece.
    fn piece_char(piece: Option<ReversiPiece>) -> (r: char)
        ensures
            r == cell_char(piece),
    {
        match piece {
            Some(ReversiPiece::White) => 'O',
            Some(ReversiPiece::Black) => 'X',
            None => '-',
        }
    }

    /// The decimal digit of `d`.
    fn digit_of(d: usize) -> (r: char)
        requires
            d < 10,
        ensures
            r == digit_char(d as int),
    {
        if d == 0 {
            '0'
        } else if d == 1 {
            '1'
        } else if d == 2 {
            '2'
        } else if d == 3 {
            '3'
        } else if d == 4 {
            '4'
        } else if d == 5 {
            '5'
        } else if d == 6 {
            '6'
        } else if d == 7 {
            '7'
        } else if d == 8 {
            '8'
        } else {
            '9'
        }
    }

    /// Returns a human-friendly string for representing the board.
    pub fn board_string(&self) -> (r: String)
        ensures
            r@ == board_text(self.cells()),
    {
        let mut result = String::new();
        push_char(&mut result, '\n');
        let mut k: usize = 0;
        while k < BOARD_SIZE
            invariant
                k <= BOARD_SIZE,
                result@ == seq!['\n'] + rows_text(self.cells(), k as int),
            decreases BOARD_SIZE - k,
        {
            let row = BOARD_SIZE - 1 - k;
            let ghost start = result@;
            push_char(&mut result, '|');
            push_char(&mut result, ' ');
            for col in 0usize..8
                invariant
                    row < 8,
                    result@ == start + seq!['|', ' '] + cells_text(self.cells(), row as int, col as int),
            {
                let piece = self.get_piece(BoardPosition::new(col, row));
                push_char(&mut result, Self::piece_char(piece));
                push_char(&mut result, ' ');
            }
            push_char(&mut result, '\n');
            k = k + 1;
        }
        let ghost start = result@;
        push_char(&mut result, ' ');
        for n in 0usize..8
            invariant
                result@ == start + seq![' '] + dashes(n as int),
        {
            push_char(&mut result, '-');
            push_char(&mut result, '-');
        }
        push_char(&mut result, '\n');
        push_char(&mut result, ' ');
        push_char(&mut result, ' ');
        for col in 0usize..8
            invariant
                result@ == start + seq![' '] + dashes(8) + seq!['\n', ' ', ' '] + col_labels(col as int),
        {
            push_char(&mut result, Self::digit_of(col));
            push_char(&mut result, ' ');
        }
        result
    }

    /// Flips the opposing pieces trapped along the `t`-th direction, given
    /// the sibling found for that direction on the board `b` before the
    /// placement.
    fn flip_run(
        &mut self,
        origin: BoardPosition,
        piece: ReversiPiece,
        t: usize,
        sibling: Option<BoardPosition>,
        Ghost(b): Ghost<Seq<Option<ReversiPiece>>>,
    )
        requires
            on_board(origin.col as int, origin.row as int),
            t < 9,
            b[board_index(origin.col as int, origin.row as int)] is None,
            old(self).cells() == board_so_far(
                b,
                origin.col as int,
                origin.row as int,
                piece,
                t as int,
                1,
            ),
            sibling is Some <==> brackets(
                b,
                origin.col as int,
                origin.row as int,
                piece,
                dir_col(t as int),
                dir_row(t as int),
            ),
            sibling is Some ==> sibling == Some(
                sibling_of(
                    b,
                    origin.col as int,
                    origin.row as int,
                    piece,
                    dir_col(t as int),
                    dir_row(t as int),
                ),
            ),
        ensures
            final(self).cells() == board_so_far(
                b,
                origin.col as int,
                origin.row as int,
                piece,
                t + 1,
                1,
            ),
            final(self).turn() == old(self).turn(),
    {
        let ghost c = origin.col as int;
        let ghost rr = origin.row as int;
        let ghost dc = dir_col(t as int);
        let ghost dr = dir_row(t as int);
        match sibling {
            None => {
                assert(self.cells() =~= board_so_far(b, c, rr, piece, t + 1, 1));
            },
            Some(end) => {
                let ghost n = run_len(b, c, rr, piece, dc, dr) as int;
                let directions = Directions {
                    col_dir: Self::dir_value_of(t / 3),
                    row_dir: Self::dir_value_of(t % 3),
                };
                proof {
                    lemma_run_bound(b, c, rr, piece, dc, dr, 1);
                    lemma_run_cells(b, c, rr, piece, dc, dr, 1, 1);
                }
                let mut iter = BoardDirectionIter::new(origin, directions);
                let mut p = iter.next().unwrap();
                let ghost mut k: int = 1;
                while p != end
                    invariant
                        on_board(c, rr),
                        c == origin.col,
                        rr == origin.row,
                        b[board_index(c, rr)] is None,
                        t < 9,
                        dc == dir_col(t as int),
                        dr == dir_row(t as int),
                        brackets(b, c, rr, piece, dc, dr),
                        n == run_len(b, c, rr, piece, dc, dr),
                        end == sibling_of(b, c, rr, piece, dc, dr),
                        1 <= k <= n + 1,
                        n + 1 <= 8,
                        p.col == c + step(dc, k),
                        p.row == rr + step(dr, k),
                        on_board(p.col as int, p.row as int),
                        iter.wf(),
                        iter.cursor_at() == p,
                        iter.direction_of() == (dc, dr),
                        self.cells() == board_so_far(b, c, rr, piece, t as int, k),
                        self.turn() == old(self).turn(),
                    decreases n + 1 - k,
                {
                    assert(k <= n) by {
                        if k == n + 1 {
                            assert(p == end);
                        }
                    }
                    self.set_piece(p, Some(piece));
                    proof {
                        lemma_coords_index(p.col as int, p.row as int);
                        lemma_board_so_far_step(b, c, rr, piece, t as int, k);
                        lemma_run_cells(b, c, rr, piece, dc, dr, 1, k);
                        if k + 1 <= n {
                            lemma_run_cells(b, c, rr, piece, dc, dr, 1, k + 1);
                        }
                    }
                    p = iter.next().unwrap();
                    proof {
                        k = k + 1;
                    }
                }
                proof {
                    assert(k == n + 1) by {
                        if k <= n {
                            assert(dist_along(c, rr, dc, dr, p.col as int, p.row as int) == k);
                        }
                    }
                    assert(self.cells() =~= board_so_far(b, c, rr, piece, t + 1, 1));
                }
            },
        }
    }

    /// Given a position of a piece on the board, find its sibling piece in
    /// a given direction.
    ///
    /// A sibling piece is a piece of the same color that, combined with
    /// the current piece, traps enemies in the given direction:
    ///         X O O O X
    ///         a       b
    /// Here 'a' and 'b' are siblings; with a gap (empty space) between
    /// them they would not be.
    ///
    /// If a sibling is found, it returns the BoardPosition of that sibling.
    /// Otherwise, it gives None.
    pub fn find_sibling_piece_pos(
        &self,
        origin: BoardPosition,
        origin_color: ReversiPiece,
        directions: Directions,
    ) -> (r: Option<BoardPosition>)
        requires
            on_board(origin.col as int, origin.row as int),
            unit(directions.col_dir as int),
            unit(directions.row_dir as int),
        ensures
            r is Some <==> brackets(
                self.cells(),
                origin.col as int,
                origin.row as int,
                origin_color,
                directions.col_dir as int,
                directions.row_dir as int,
            ),
            r is Some ==> r == Some(
                sibling_of(
                    self.cells(),
                    origin.col as int,
                    origin.row as int,
                    origin_color,
                    directions.col_dir as int,
                    directions.row_dir as int,
                ),
            ),
    {
        let ghost b = self.cells();
        let ghost c = origin.col as int;
        let ghost rr = origin.row as int;
        let ghost dc = directions.col_dir as int;
        let ghost dr = directions.row_dir as int;
        // 'Same' for both directions means we are not checking anything
        if directions.col_dir == 0 && directions.row_dir == 0 {
            return None;
        }
        let mut dist: i32 = 1;
        let mut col_pos: i32 = origin.col as i32 + directions.col_dir;
        let mut row_pos: i32 = origin.row as i32 + directions.row_dir;
        // Walk away from the origin: opponent pieces keep the search going;
        // the board's edge or an empty position ends it without a sibling.
        loop
            invariant
                valid_dir(dc, dr),
                on_board(c, rr),
                b == self.cells(),
                c == origin.col,
                rr == origin.row,
                1 <= dist <= 8,
                col_pos == c + step(dc, dist as int),
                row_pos == rr + step(dr, dist as int),
                dc == directions.col_dir,
                dr == directions.row_dir,
                run_len(b, c, rr, origin_color, dc, dr) == (dist - 1) + run_from(
                    b,
                    c,
                    rr,
                    origin_color,
                    dc,
                    dr,
                    dist as int,
                ),
            decreases 8 - dist,
        {
            if col_pos < 0 || col_pos >= BOARD_SIZE as i32 || row_pos < 0 || row_pos
                >= BOARD_SIZE as i32 {
                // We reached the boundaries without encountering a sibling piece.
                assert(run_from(b, c, rr, origin_color, dc, dr, dist as int) == 0);
                assert(run_len(b, c, rr, origin_color, dc, dr) == dist - 1);
                assert(!brackets(b, c, rr, origin_color, dc, dr));
                return None;
            }
            let piece = self.get_piece(BoardPosition::new(col_pos as usize, row_pos as usize));
            if piece.is_none() {
                // This direction is not valid, since it did not end in a piece of our color.
                assert(run_from(b, c, rr, origin_color, dc, dr, dist as int) == 0);
                assert(run_len(b, c, rr, origin_color, dc, dr) == dist - 1);
                assert(!brackets(b, c, rr, origin_color, dc, dr));
                return None;
            } else if piece.unwrap() == opponent(origin_color) {
                // We are still in the 'opponent' segment, so keep going.
                assert(dist < 8);
                assert(run_from(b, c, rr, origin_color, dc, dr, dist as int) == 1 + run_from(
                    b,
                    c,
                    rr,
                    origin_color,
                    dc,
                    dr,
                    dist + 1,
                ));
                dist = dist + 1;
                col_pos = col_pos + directions.col_dir;
                row_pos = row_pos + directions.row_dir;
            } else {
                // We've found another piece of our own color.
                // But it is only a sibling piece if it traps an enemy piece (must be >1 piece away).
                assert(piece == Some(origin_color)) by {
                    match origin_color {
                        ReversiPiece::Black => {},
                        ReversiPiece::White => {},
                    }
                }
                assert(run_from(b, c, rr, origin_color, dc, dr, dist as int) == 0);
                assert(run_len(b, c, rr, origin_color, dc, dr) == dist - 1);
                if dist > 1 {
                    assert(brackets(b, c, rr, origin_color, dc, dr));
                    return Some(BoardPosition { col: col_pos as usize, row: row_pos as usize });
                } else {
                    return None;
                }
            }
        }
    }
}

/// The array whose contents are `cells`.
pub open spec fn array_of(cells: Seq<Option<ReversiPiece>>) -> [Option<ReversiPiece>; 64] {
    array_from(spec_array_fill_for_copy_type::<Option<ReversiPiece>, 64>(None), cells, 64)
}

/// `a` with its first `n` entries replaced by those of `cells`.
pub open spec fn array_from(
    a: [Option<ReversiPiece>; 64],
    cells: Seq<Option<ReversiPiece>>,
    n: int,
) -> [Option<ReversiPiece>; 64]
    decreases n,
{
    if n <= 0 {
        a
    } else {
        spec_array_update(array_from(a, cells, n - 1), n - 1, cells[n - 1])
    }
}

impl ReversiState {
    /// The state after the current player passes.
    pub closed spec fn model_passed(&self) -> Self {
        Self::from_parts(self.cells(), spec_opponent(self.turn()))
    }

    /// The state after `action`.
    pub closed spec fn model_apply(&self, action: ReversiPlayerAction) -> Self {
        match action {
            ReversiPlayerAction::PassTurn => self.model_passed(),
            ReversiPlayerAction::Move { position } => Self::from_parts(
                placed(
                    self.cells(),
                    position.col as int,
                    position.row as int,
                    spec_piece_of(self.turn()),
                ),
                spec_opponent(self.turn()),
            ),
        }
    }

    /// The initial state.
    pub closed spec fn model_initial() -> Self {
        Self::from_parts(initial_cells(), PlayerColor::Black)
    }

    /// What a move does: a pass keeps the board and a placement leaves the
    /// board that `placed` describes; either way the turn passes to the
    /// opponent.
    pub proof fn lemma_apply(&self, action: ReversiPlayerAction)
        ensures
            self.model_apply(action).turn() == spec_opponent(self.turn()),
            self.model_apply(action).cells() == (match action {
                ReversiPlayerAction::PassTurn => self.cells(),
                ReversiPlayerAction::Move { position } => placed(
                    self.cells(),
                    position.col as int,
                    position.row as int,
                    spec_piece_of(self.turn()),
                ),
            }),
            self.model_apply(action).cells().len() == 64,
    {
        self.lemma_parts();
        match action {
            ReversiPlayerAction::PassTurn => {
                Self::lemma_from_parts(self.cells(), spec_opponent(self.turn()));
            },
            ReversiPlayerAction::Move { position } => {
                Self::lemma_from_parts(
                    placed(self.cells(), position.col as int, position.row as int, spec_piece_of(self.turn())),
                    spec_opponent(self.turn()),
                );
            },
        }
    }

    /// The initial state: the four middle cells taken, Black to play.
    pub proof fn lemma_initial()
        ensures
            Self::model_initial().cells() == initial_cells(),
            Self::model_initial().turn() == PlayerColor::Black,
    {
        Self::lemma_from_parts(initial_cells(), PlayerColor::Black);
    }

    /// A state has 64 cells, and is the state of its own parts.
    proof fn lemma_parts(&self)
        ensures
            self.cells().len() == 64,
            Self::from_parts(self.cells(), self.turn()) == *self,
    {
        lemma_array_of(self.cells());
        assert(array_of(self.cells()) =~= self.board);
    }

    /// The parts of a state built from parts.
    proof fn lemma_from_parts(cells: Seq<Option<ReversiPiece>>, turn: PlayerColor)
        requires
            cells.len() == 64,
        ensures
            Self::from_parts(cells, turn).cells() == cells,
            Self::from_parts(cells, turn).turn() == turn,
    {
        lemma_array_of(cells);
    }
}

impl GameState for ReversiState {
    type Move = ReversiPlayerAction;

    open spec fn wf(&self) -> bool {
        true
    }

    open spec fn spec_turn(&self) -> PlayerColor {
        self.turn()
    }

    open spec fn spec_legal_moves(&self, player: PlayerColor) -> Seq<ReversiPlayerAction> {
        moves_of(self.cells(), spec_piece_of(player))
    }

    open spec fn spec_can_apply(&self, action: ReversiPlayerAction) -> bool {
        match action {
            ReversiPlayerAction::PassTurn => true,
            ReversiPlayerAction::Move { position } => on_board(
                position.col as int,
                position.row as int,
            ) && self.cell(position.col as int, position.row as int) is None,
        }
    }

    open spec fn spec_apply(&self, action: ReversiPlayerAction) -> Self {
        self.model_apply(action)
    }

    open spec fn spec_game_over(&self) -> bool {
        !has_placement(self.cells(), ReversiPiece::Black) && !has_placement(
            self.cells(),
            ReversiPiece::White,
        )
    }

    open spec fn spec_game_result(&self) -> Option<GameResult> {
        spec_result_from_scores(
            self.spec_game_over(),
            count_color(self.cells(), ReversiPiece::White),
            count_color(self.cells(), ReversiPiece::Black),
        )
    }

    open spec fn spec_has_score(&self) -> bool {
        true
    }

    open spec fn spec_score(&self, player: PlayerColor) -> nat {
        count_color(self.cells(), spec_piece_of(player))
    }

    open spec fn spec_can_skip(&self) -> bool {
        true
    }

    open spec fn spec_skip(&self) -> Self {
        self.model_passed()
    }

    /// The result is read from a consistent state only.
    open spec fn spec_result_readable(&self) -> bool {
        false
    }

    open spec fn spec_initial() -> Self {
        Self::model_initial()
    }

    open spec fn spec_human_friendly(&self) -> Seq<char> {
        board_text(self.cells())
    }

    open spec fn spec_remaining(&self) -> nat {
        2 * count_empty(self.cells()) + if has_placement(
            self.cells(),
            spec_piece_of(self.turn()),
        ) {
            0nat
        } else {
            1nat
        }
    }

    fn clone_state(&self) -> (r: Self) {
        *self
    }

    /// Returns a human-friendly string for representing the state.
    fn human_friendly(&self) -> (r: String) {
        self.board_string()
    }

    /// Sets the board to the starting position, with Black to play.
    fn initialize_board(&mut self) {
        for i in 0usize..64
            invariant
                forall|j: int| 0 <= j < i ==> self.board@[j] is None,
        {
            self.board[i] = None;
        }
        self.set_piece(BoardPosition::new(3, 3), Some(ReversiPiece::Black));
        self.set_piece(BoardPosition::new(4, 4), Some(ReversiPiece::Black));
        self.set_piece(BoardPosition::new(3, 4), Some(ReversiPiece::White));
        self.set_piece(BoardPosition::new(4, 3), Some(ReversiPiece::White));
        self.current_player_turn = PlayerColor::Black;
        proof {
            assert(self.cells() =~= initial_cells());
            self.lemma_parts();
        }
    }

    /// Returns a fresh, ready-to-play game state.
    fn initial_state() -> (r: Self) {
        let mut state = Self::new();
        state.initialize_board();
        state
    }

    /// The legal placements of the player's piece, in scan order; a single
    /// pass when there is none.
    fn legal_moves(&self, player: PlayerColor) -> (r: Vec<ReversiPlayerAction>) {
        let piece = ReversiPiece::from_color(player);
        let mut actions = self.legal_placements(piece);
        if actions.len() == 0 {
            actions.push(ReversiPlayerAction::PassTurn);
        }
        actions
    }

    /// Places the current player's piece (flipping what it traps), or
    /// passes; either way the turn goes to the opponent.
    fn apply_move(&mut self, action: ReversiPlayerAction) {
        proof {
            self.lemma_parts();
        }
        match action {
            ReversiPlayerAction::PassTurn => {},
            ReversiPlayerAction::Move { position } => {
                let piece = ReversiPiece::from_color(self.current_player_turn);
                ReversiState::apply_move(self, ReversiMove { piece, position });
            },
        }
        self.current_player_turn = self.current_player_turn.opponent();
        proof {
            self.lemma_parts();
        }
    }

    fn current_player_turn(&self) -> (r: PlayerColor) {
        self.current_player_turn
    }

    /// The score of a player is the number of their pieces on the board.
    fn player_score(&self, player: PlayerColor) -> (r: usize) {
        self.count_pieces(ReversiPiece::from_color(player))
    }

    /// Skip the current player's turn without taking any action.
    fn skip_turn(&mut self) {
        proof {
            self.lemma_parts();
        }
        self.current_player_turn = self.current_player_turn.opponent();
        proof {
            self.lemma_parts();
        }
    }

    /// True when neither player can place a piece.
    fn is_game_over(&self) -> (r: bool) {
        !self.has_legal_placement(ReversiPiece::Black) && !self.has_legal_placement(
            ReversiPiece::White,
        )
    }

    /// The player with more pieces on the board wins.
    fn game_result(&self) -> (r: Option<GameResult>) {
        let over = self.is_game_over();
        result_from_scores(
            over,
            self.count_pieces(ReversiPiece::White),
            self.count_pieces(ReversiPiece::Black),
        )
    }

    proof fn lemma_initial_wf() {
    }

    proof fn lemma_apply_wf(&self, action: ReversiPlayerAction) {
    }

    proof fn lemma_playable(&self) {
        let b = self.cells();
        let piece = spec_piece_of(self.turn());
        self.lemma_parts();
        let moves = self.spec_legal_moves(self.spec_turn());
        if has_placement(b, piece) {
            lemma_scan_legal(b, piece, 64);
            assert forall|i: int| 0 <= i < moves.len() implies {
                &&& #[trigger] self.spec_can_apply(moves[i])
                &&& self.spec_apply(moves[i]).spec_remaining() < self.spec_remaining()
            } by {
                let m = moves[i];
                let pos = m->position;
                lemma_placed_empty(b, pos.col as int, pos.row as int, piece);
                Self::lemma_from_parts(
                    placed(b, pos.col as int, pos.row as int, piece),
                    spec_opponent(self.turn()),
                );
            }
        } else {
            Self::lemma_from_parts(b, spec_opponent(self.turn()));
            assert(has_placement(b, spec_piece_of(spec_opponent(self.turn())))) by {
                match self.turn() {
                    PlayerColor::Black => {},
                    PlayerColor::White => {},
                }
            }
        }
    }

    proof fn lemma_result_iff_over(&self) {
    }
}

} // verus!
