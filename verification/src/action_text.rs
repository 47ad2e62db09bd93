use vstd::prelude::*;
use crate::reversi::{BoardPosition, ReversiPlayerAction, BOARD_SIZE};
use crate::tic_tac_toe::{self, TicTacToeAction};
use crate::text::{
    all_digits, digit_char, digits_value, is_white, lemma_split_on_pair, parse_usize, sign_stripped, split_at_char,
    split_on, str_chars, trim, trim_end, trim_start, trimmed, usize_text,
};

verus! {

/// True if `s` reads "pass" in any mix of upper and lower case, as
/// `s.to_lowercase() == "pass"` finds: no other character lowers to these
/// letters.
pub open spec fn is_pass_word(s: Seq<char>) -> bool {
    &&& s.len() == 4
    &&& (s[0] == 'p' || s[0] == 'P')
    &&& (s[1] == 'a' || s[1] == 'A')
    &&& (s[2] == 's' || s[2] == 'S')
    &&& (s[3] == 's' || s[3] == 'S')
}

/// What the text `s` reads as: "pass" (in any case) passes the turn;
/// "col,row" (each number possibly surrounded by white space) places a
/// piece, as long as the column is at most the board size and the row
/// below it; anything else is refused with the code 9.
pub open spec fn action_text(s: Seq<char>) -> Result<ReversiPlayerAction, usize> {
    if is_pass_word(s) {
        Ok(ReversiPlayerAction::PassTurn)
    } else {
        let parts = split_on(s, ',');
        if parts.len() != 2 {
            Err(9)
        } else {
            match (usize_text(trimmed(parts[0])), usize_text(trimmed(parts[1]))) {
                (Some(col), Some(row)) => if col > 8 || row >= 8 {
                    Err(9)
                } else {
                    Ok(ReversiPlayerAction::Move { position: BoardPosition { col, row } })
                },
                _ => Err(9),
            }
        }
    }
}

/// Reads a Reversi action from text: "pass", or "col,row".
pub fn parse_reversi_action(s: &str) -> (r: Result<ReversiPlayerAction, usize>)
    ensures
        r == action_text(s@),
{
    let chars = str_chars(s);
    if chars.len() == 4 && (chars[0] == 'p' || chars[0] == 'P') && (chars[1] == 'a' || chars[1] == 'A') && (
    chars[2] == 's' || chars[2] == 'S') && (chars[3] == 's' || chars[3] == 'S') {
        return Ok(ReversiPlayerAction::PassTurn);
    }
    let nums = split_at_char(chars.as_slice(), ',');
    if nums.len() != 2 {
        return Err(9);
    }
    let col_text = trim(nums[0].as_slice());
    let row_text = trim(nums[1].as_slice());
    let col = parse_usize(col_text.as_slice());
    let row = parse_usize(row_text.as_slice());
    match (col, row) {
        (Some(col), Some(row)) => {
            let position = BoardPosition::new(col, row);
            if col > BOARD_SIZE || row >= BOARD_SIZE {
                Err(9)
            } else {
                Ok(ReversiPlayerAction::Move { position })
            }
        },
        _ => Err(9),
    }
}

impl std::str::FromStr for ReversiPlayerAction {
    type Err = usize;

    fn from_str(s: &str) -> (r: Result<Self, Self::Err>)
        ensures
            r == action_text(s@),
    {
        parse_reversi_action(s)
    }
}

/// What the text `s` reads as for tic-tac-toe: "col,row" (each number
/// possibly surrounded by white space) places a piece on the board;
/// anything else is refused.
pub open spec fn tic_tac_toe_action_text(s: Seq<char>) -> Result<TicTacToeAction, ()> {
    let parts = split_on(s, ',');
    if parts.len() != 2 {
        Err(())
    } else {
        match (usize_text(trimmed(parts[0])), usize_text(trimmed(parts[1]))) {
            (Some(col), Some(row)) => if col < 3 && row < 3 {
                Ok(TicTacToeAction(tic_tac_toe::BoardPosition { col, row }))
            } else {
                Err(())
            },
            _ => Err(()),
        }
    }
}

/// The first number of a tic-tac-toe move's text is the column: a column
/// text and a row text (neither holding a comma), joined by a comma, read
/// as the move to that column and row wherever both are on the board.
pub proof fn lemma_tic_tac_toe_text_col_row(a: Seq<char>, b: Seq<char>, col: usize, row: usize)
    requires
        !a.contains(','),
        !b.contains(','),
        usize_text(trimmed(a)) == Some(col),
        usize_text(trimmed(b)) == Some(row),
        col < 3,
        row < 3,
    ensures
        tic_tac_toe_action_text(a + seq![','] + b) == Ok::<TicTacToeAction, ()>(
            TicTacToeAction(tic_tac_toe::BoardPosition { col, row }),
        ),
{
    lemma_split_on_pair(a, b, ',');
}

/// For digits `c` and `r` below 3, the text "c,r" reads as the move to
/// column `c`, row `r`.
pub proof fn lemma_tic_tac_toe_digits(c: nat, r: nat)
    requires
        c < 3,
        r < 3,
    ensures
        tic_tac_toe_action_text(seq![digit_char(c), ',', digit_char(r)]) == Ok::<TicTacToeAction, ()>(
            TicTacToeAction(tic_tac_toe::BoardPosition { col: c as usize, row: r as usize }),
        ),
{
    lemma_digit_text(c);
    lemma_digit_text(r);
    assert(seq![digit_char(c), ',', digit_char(r)] =~= seq![digit_char(c)] + seq![','] + seq![digit_char(r)]);
    lemma_tic_tac_toe_text_col_row(seq![digit_char(c)], seq![digit_char(r)], c as usize, r as usize);
}

/// The text of one decimal digit `d` reads as `d`, and holds no comma.
pub proof fn lemma_digit_text(d: nat)
    requires
        d < 10,
    ensures
        usize_text(trimmed(seq![digit_char(d)])) == Some(d as usize),
        !seq![digit_char(d)].contains(','),
{
    let t = seq![digit_char(d)];
    assert(!is_white(digit_char(d)));
    assert(trim_start(t) == t);
    assert(trim_end(t) == t);
    assert(sign_stripped(t) == t);
    assert(all_digits(t));
    assert(t.drop_last() =~= Seq::<char>::empty());
    assert(digits_value(Seq::<char>::empty()) == 0);
    assert(digit_char(d) as nat - '0' as nat == d) by {
        assert('0' as nat == 48 && '1' as nat == 49 && '2' as nat == 50 && '3' as nat == 51 && '4' as nat == 52);
        assert('5' as nat == 53 && '6' as nat == 54 && '7' as nat == 55 && '8' as nat == 56 && '9' as nat == 57);
    }
    assert(digits_value(t) == d);
    if t.contains(',') {
        assert(t[0] == ',');
    }
}

/// The first number of a Reversi move's text is the column: a column text
/// and a row text (neither holding a comma), joined by a comma, read as the
/// placement at that column and row wherever they are accepted.
pub proof fn lemma_reversi_text_col_row(a: Seq<char>, b: Seq<char>, col: usize, row: usize)
    requires
        !a.contains(','),
        !b.contains(','),
        usize_text(trimmed(a)) == Some(col),
        usize_text(trimmed(b)) == Some(row),
        col <= 8,
        row < 8,
    ensures
        action_text(a + seq![','] + b) == Ok::<ReversiPlayerAction, usize>(
            ReversiPlayerAction::Move { position: BoardPosition { col, row } },
        ),
{
    let s = a + seq![','] + b;
    assert(s[a.len() as int] == ',');
    assert(!is_pass_word(s));
    lemma_split_on_pair(a, b, ',');
}

/// Reads a tic-tac-toe action from text: "col,row".
pub fn parse_tic_tac_toe_action(s: &str) -> (r: Result<TicTacToeAction, ()>)
    ensures
        r == tic_tac_toe_action_text(s@),
{
    let chars = str_chars(s);
    let nums = split_at_char(chars.as_slice(), ',');
    if nums.len() != 2 {
        return Err(());
    }
    let col_text = trim(nums[0].as_slice());
    let row_text = trim(nums[1].as_slice());
    match (parse_usize(col_text.as_slice()), parse_usize(row_text.as_slice())) {
        (Some(col), Some(row)) => {
            if col < tic_tac_toe::BOARD_SIZE && row < tic_tac_toe::BOARD_SIZE {
                Ok(TicTacToeAction(tic_tac_toe::BoardPosition::new(col, row)))
            } else {
                Err(())
            }
        },
        _ => Err(()),
    }
}

impl std::str::FromStr for TicTacToeAction {
    type Err = ();

    fn from_str(s: &str) -> (r: Result<Self, Self::Err>)
        ensures
            r == tic_tac_toe_action_text(s@),
    {
        parse_tic_tac_toe_action(s)
    }
}

} // verus!
