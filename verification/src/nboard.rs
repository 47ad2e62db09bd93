use vstd::prelude::*;
use crate::reversi::{BoardPosition, ReversiPlayerAction};
use crate::text::{
    find_from, find_pattern, parse_usize, push_char, split_words, str_chars, string_of, usize_text, words,
};

verus! {

/// An error met while talking with an NBoard GUI.
#[derive(Debug)]
pub struct NboardError {
    msg: String,
}

impl NboardError {
    /// The message of the error.
    pub closed spec fn message(&self) -> Seq<char> {
        self.msg@
    }

    /// An error with the given message.
    pub fn err2(msg: &str) -> (r: Self)
        ensures
            r.message() == msg@,
    {
        Self { msg: msg.to_string() }
    }

    /// A failed result with an error holding the given message.
    pub fn err<T>(msg: &str) -> (r: Result<T, Self>)
        ensures
            r matches Err(e) && e.message() == msg@,
    {
        Result::Err(Self { msg: msg.to_string() })
    }

    /// The text of the error.
    pub fn text(&self) -> (r: String)
        ensures
            r@ == self.message(),
    {
        self.msg.clone()
    }
}

/// An NBoard action, which is structured like so:
/// "A8" is the bottom-left position, "H1" is the top-right.
pub struct NBoardAction(pub String);

/// The column letter of column `col`: 'a' for the leftmost.
pub open spec fn col_letter(col: int) -> char {
    if col == 0 {
        'a'
    } else if col == 1 {
        'b'
    } else if col == 2 {
        'c'
    } else if col == 3 {
        'd'
    } else if col == 4 {
        'e'
    } else if col == 5 {
        'f'
    } else if col == 6 {
        'g'
    } else {
        'h'
    }
}

/// The decimal digit of `d`, for `d` up to 8.
pub open spec fn digit_of(d: int) -> char {
    if d == 0 {
        '0'
    } else if d == 1 {
        '1'
    } else if d == 2 {
        '2'
    } else if d == 3 {
        '3'
    } else if d == 4 {
        '4'
    } else if d == 5 {
        '5'
    } else if d == 6 {
        '6'
    } else if d == 7 {
        '7'
    } else {
        '8'
    }
}

/// True if NBoard can write the action: a pass, or a position in the eight
/// columns whose row is at most eight.
pub open spec fn nboard_writable(action: ReversiPlayerAction) -> bool {
    match action {
        ReversiPlayerAction::PassTurn => true,
        ReversiPlayerAction::Move { position } => position.col <= 7 && position.row <= 8,
    }
}

/// The NBoard text of an action: nothing for a pass; otherwise the column
/// letter, then the row counted from the top, starting at 1.
pub open spec fn nboard_text(action: ReversiPlayerAction) -> Seq<char> {
    match action {
        ReversiPlayerAction::PassTurn => seq![],
        ReversiPlayerAction::Move { position } => seq![
            col_letter(position.col as int),
            digit_of(8 - position.row),
        ],
    }
}

impl NBoardAction {
    /// The NBoard form of a Reversi action.
    pub fn from_reversi_action(action: ReversiPlayerAction) -> (r: NBoardAction)
        requires
            nboard_writable(action),
        ensures
            r.0@ == nboard_text(action),
    {
        let (x_pos, y_pos) = match action {
            ReversiPlayerAction::PassTurn => return NBoardAction(String::new()),
            ReversiPlayerAction::Move { position } => (position.col(), position.row()),
        };
        let letter_col = if x_pos == 0 {
            'a'
        } else if x_pos == 1 {
            'b'
        } else if x_pos == 2 {
            'c'
        } else if x_pos == 3 {
            'd'
        } else if x_pos == 4 {
            'e'
        } else if x_pos == 5 {
            'f'
        } else if x_pos == 6 {
            'g'
        } else {
            'h'
        };
        let num_row = 8 - y_pos;
        let digit = if num_row == 0 {
            '0'
        } else if num_row == 1 {
            '1'
        } else if num_row == 2 {
            '2'
        } else if num_row == 3 {
            '3'
        } else if num_row == 4 {
            '4'
        } else if num_row == 5 {
            '5'
        } else if num_row == 6 {
            '6'
        } else if num_row == 7 {
            '7'
        } else {
            '8'
        };
        let mut nboard_formatted = String::new();
        push_char(&mut nboard_formatted, letter_col);
        push_char(&mut nboard_formatted, digit);
        proof {
            assert(nboard_formatted@ =~= nboard_text(action));
        }
        NBoardAction(nboard_formatted)
    }
}

/// True if `t` starts with an NBoard move this engine reads: a capital
/// column letter from 'A' to 'H', then a row digit from '1' to '8'.
pub open spec fn readable_move(t: Seq<char>) -> bool {
    t.len() >= 2 && 'A' <= t[0] <= 'H' && '1' <= t[1] <= '8'
}

/// The Reversi action that the NBoard move `t` names.
pub open spec fn move_of_text(t: Seq<char>) -> ReversiPlayerAction {
    ReversiPlayerAction::Move {
        position: BoardPosition {
            col: (t[0] as int - 'A' as int) as usize,
            row: (7 - (t[1] as int - '1' as int)) as usize,
        },
    }
}

/// The capital form of a lower-case letter.
pub open spec fn capital(c: char) -> char {
    ((c as int) - 32) as char
}

/// Writing and reading NBoard moves agree: the text written for a
/// placement on the board, with its column letter in capitals, reads as
/// that same placement; "A8" is the bottom-left position, "H1" the
/// top-right.
pub proof fn lemma_nboard_text_read_back(col: usize, row: usize)
    requires
        col < 8,
        row < 8,
    ensures
        ({
            let t = nboard_text(ReversiPlayerAction::Move { position: BoardPosition { col, row } });
            let up = seq![capital(t[0]), t[1]];
            &&& readable_move(up)
            &&& move_of_text(up) == ReversiPlayerAction::Move { position: BoardPosition { col, row } }
        }),
{
    assert('a' as int == 97 && 'b' as int == 98 && 'c' as int == 99 && 'd' as int == 100);
    assert('e' as int == 101 && 'f' as int == 102 && 'g' as int == 103 && 'h' as int == 104);
    assert('A' as int == 65 && 'H' as int == 72);
    assert('1' as int == 49 && '2' as int == 50 && '3' as int == 51 && '4' as int == 52);
    assert('5' as int == 53 && '6' as int == 54 && '7' as int == 55 && '8' as int == 56);
}

/// Reads the two characters of an NBoard move.
fn move_from_chars(letter: char, digit: char) -> (r: ReversiPlayerAction)
    requires
        readable_move(seq![letter, digit]),
    ensures
        r == move_of_text(seq![letter, digit]),
{
    let x_pos_val: usize = (letter as u32 - 'A' as u32) as usize;
    let y_pos_val: usize = (digit as u32 - '0' as u32) as usize;
    let y_pos_val = 7 - (y_pos_val - 1);
    let position = BoardPosition::new(x_pos_val, y_pos_val);
    ReversiPlayerAction::Move { position }
}

/// The Reversi action that an NBoard move names.
pub fn nboard_action_to_reversi_action(n: &NBoardAction) -> (r: ReversiPlayerAction)
    requires
        readable_move(n.0@),
    ensures
        r == move_of_text(n.0@),
{
    let chars = str_chars(n.0.as_str());
    let r = move_from_chars(chars[0], chars[1]);
    proof {
        assert(seq![chars@[0], chars@[1]][0] == n.0@[0]);
    }
    r
}

/// True if `n` is an NBoard move this engine reads.
pub fn is_readable_move(n: &NBoardAction) -> (r: bool)
    ensures
        r == readable_move(n.0@),
{
    let chars = str_chars(n.0.as_str());
    chars.len() >= 2 && 'A' <= chars[0] && chars[0] <= 'H' && '1' <= chars[1] && chars[1] <= '8'
}

/// The marker before a move of Black in a GGF game record.
pub open spec fn black_marker() -> Seq<char> {
    seq![']', 'B', '[']
}

/// The marker before a move of White in a GGF game record.
pub open spec fn white_marker() -> Seq<char> {
    seq![']', 'W', '[']
}

/// The index of the next move marker, of either player, at or after `pos`.
pub open spec fn next_marker(s: Seq<char>, pos: int) -> Option<int> {
    let b = find_from(s, black_marker(), pos);
    let w = find_from(s, white_marker(), pos);
    match (b, w) {
        (Some(i), Some(j)) => Some(if i < j {
            i
        } else {
            j
        }),
        (Some(i), None) => Some(i),
        (None, Some(j)) => Some(j),
        (None, None) => None,
    }
}

/// A marker found at or after `pos` lies after `pos`.
proof fn lemma_find_from_bounds(s: Seq<char>, pat: Seq<char>, from: int)
    requires
        from >= 0,
    ensures
        find_from(s, pat, from) matches Some(i) ==> from <= i && i + pat.len() <= s.len(),
    decreases s.len() + 1 - from,
{
    if from + pat.len() <= s.len() && !crate::text::occurs_at(s, pat, from) {
        lemma_find_from_bounds(s, pat, from + 1);
    }
}

/// The two-character texts of the moves in a GGF record, from `pos` on:
/// the two characters after each move marker, in order.
pub open spec fn moves_from(s: Seq<char>, pos: int) -> Seq<Seq<char>>
    decreases s.len() - pos,
{
    if pos < 0 {
        seq![]
    } else {
        match next_marker(s, pos) {
            Some(i) => if pos <= i && i + 5 <= s.len() {
                seq![s.subrange(i + 3, i + 5)] + moves_from(s, i + 5)
            } else {
                seq![]
            },
            None => seq![],
        }
    }
}

/// True if every move marker of the record from `pos` on is followed by a
/// move this engine reads.
pub open spec fn moves_readable_from(s: Seq<char>, pos: int) -> bool
    decreases s.len() - pos,
{
    if pos < 0 {
        true
    } else {
        match next_marker(s, pos) {
            Some(i) => pos <= i && i + 5 <= s.len() && readable_move(s.subrange(i + 3, i + 5)) && moves_readable_from(
                s,
                i + 5,
            ),
            None => true,
        }
    }
}

/// The actions of the moves recorded in a GGF game record, in order.
pub open spec fn ggf_history(s: Seq<char>) -> Seq<ReversiPlayerAction> {
    moves_from(s, 0).map_values(|t: Seq<char>| move_of_text(t))
}

/// True if every move marker of the GGF record is followed by a move this
/// engine reads: the records `parse_game_history` takes.
pub fn history_readable(ggf: &str) -> (r: bool)
    ensures
        r == moves_readable_from(ggf@, 0),
{
    let s = str_chars(ggf);
    let black: [char; 3] = [']', 'B', '['];
    let white: [char; 3] = [']', 'W', '['];
    proof {
        assert(black@ == black_marker());
        assert(white@ == white_marker());
    }
    let mut pos: usize = 0;
    let n = s.len();
    loop
        invariant
            n == s@.len(),
            s@ == ggf@,
            black@ == black_marker(),
            white@ == white_marker(),
            pos <= s@.len(),
            moves_readable_from(s@, 0) == moves_readable_from(s@, pos as int),
        decreases s@.len() - pos,
    {
        let next_b_move = find_pattern(s.as_slice(), black.as_slice(), pos);
        let next_w_move = find_pattern(s.as_slice(), white.as_slice(), pos);
        proof {
            lemma_find_from_bounds(s@, black_marker(), pos as int);
            lemma_find_from_bounds(s@, white_marker(), pos as int);
        }
        let next_move_idx = match (next_b_move, next_w_move) {
            (Some(b), Some(w)) => Some(if b < w {
                b
            } else {
                w
            }),
            (Some(b), None) => Some(b),
            (None, Some(w)) => Some(w),
            (None, None) => None,
        };
        match next_move_idx {
            Some(idx) => {
                assert(next_marker(s@, pos as int) == Some(idx as int));
                if n - idx < 5 {
                    return false;
                }
                let letter = s[idx + 3];
                let digit = s[idx + 4];
                proof {
                    assert(s@.subrange(idx + 3, idx + 5) =~= seq![letter, digit]);
                }
                if !('A' <= letter && letter <= 'H' && '1' <= digit && digit <= '8') {
                    return false;
                }
                pos = idx + 5;
            },
            None => {
                return true;
            },
        }
    }
}

/// The moves recorded in a GGF game record, such as
/// `(;GM[Othello]...]B[C4//5.558]W[C3]B[F5//26.906];)`, in order.
pub fn parse_game_history(ggf: &str) -> (r: Vec<ReversiPlayerAction>)
    requires
        moves_readable_from(ggf@, 0),
    ensures
        r@ == ggf_history(ggf@),
{
    let s = str_chars(ggf);
    let black: [char; 3] = [']', 'B', '['];
    let white: [char; 3] = [']', 'W', '['];
    proof {
        assert(black@ == black_marker());
        assert(white@ == white_marker());
    }
    let mut result: Vec<ReversiPlayerAction> = Vec::new();
    let mut pos: usize = 0;
    let n = s.len();
    loop
        invariant
            n == s@.len(),
            s@ == ggf@,
            black@ == black_marker(),
            white@ == white_marker(),
            pos <= s@.len(),
            moves_readable_from(s@, pos as int),
            moves_from(s@, 0).map_values(|t: Seq<char>| move_of_text(t)) == result@ + moves_from(
                s@,
                pos as int,
            ).map_values(|t: Seq<char>| move_of_text(t)),
        decreases s@.len() - pos,
    {
        let next_b_move = find_pattern(s.as_slice(), black.as_slice(), pos);
        let next_w_move = find_pattern(s.as_slice(), white.as_slice(), pos);
        proof {
            lemma_find_from_bounds(s@, black_marker(), pos as int);
            lemma_find_from_bounds(s@, white_marker(), pos as int);
        }
        let next_move_idx = match (next_b_move, next_w_move) {
            (Some(b), Some(w)) => Some(if b < w {
                b
            } else {
                w
            }),
            (Some(b), None) => Some(b),
            (None, Some(w)) => Some(w),
            (None, None) => None,
        };
        match next_move_idx {
            Some(idx) => {
                assert(next_marker(s@, pos as int) == Some(idx as int));
                assert(idx + 5 <= n);
                // C4, F5, etc
                let action = move_from_chars(s[idx + 3], s[idx + 4]);
                proof {
                    let t = s@.subrange(idx + 3, idx + 5);
                    assert(t =~= seq![s@[idx + 3], s@[idx + 4]]);
                    let rest = moves_from(s@, idx + 5);
                    assert(moves_from(s@, pos as int) == seq![t] + rest);
                    assert((seq![t] + rest).map_values(|t: Seq<char>| move_of_text(t)) =~= seq![move_of_text(t)]
                        + rest.map_values(|t: Seq<char>| move_of_text(t)));
                }
                let ghost before = result@;
                result.push(action);
                proof {
                    let rest = moves_from(s@, idx + 5).map_values(|t: Seq<char>| move_of_text(t));
                    assert(before + (seq![action] + rest) =~= result@ + rest);
                }
                pos = idx + 5;
            },
            None => {
                proof {
                    assert(moves_from(s@, pos as int) == Seq::<Seq<char>>::empty());
                    assert(result@ + Seq::<ReversiPlayerAction>::empty() =~= result@);
                }
                return result;
            },
        }
    }
}

/// The text between the first Black move marker of a GGF record and the
/// next one (or the end).
pub open spec fn first_black_chunk(s: Seq<char>) -> Seq<char> {
    let i = find_from(s, black_marker(), 0).unwrap();
    let end = match find_from(s, black_marker(), i + 3) {
        Some(k) => k,
        None => s.len() as int,
    };
    s.subrange(i + 3, end)
}

/// True if the record has a Black move marker, and a "//" after it before
/// the next one.
pub open spec fn has_black_move(s: Seq<char>) -> bool {
    find_from(s, black_marker(), 0) is Some && find_from(first_black_chunk(s), seq!['/', '/'], 0) is Some
}

/// The text of the first Black move of a GGF record: what follows its
/// marker up to the first "//".
pub open spec fn first_black_move(s: Seq<char>) -> Seq<char> {
    let chunk = first_black_chunk(s);
    chunk.subrange(0, find_from(chunk, seq!['/', '/'], 0).unwrap())
}

/// The move written after the first Black move marker of a GGF record,
/// up to its "//".
#[allow(non_snake_case)]
pub fn get_move_from_GGF(ggf: &str) -> (r: String)
    requires
        has_black_move(ggf@),
    ensures
        r@ == first_black_move(ggf@),
{
    let s = str_chars(ggf);
    let marker: [char; 3] = [']', 'B', '['];
    let slashes: [char; 2] = ['/', '/'];
    proof {
        assert(marker@ == black_marker());
        assert(slashes@ == seq!['/', '/']);
        lemma_find_from_bounds(s@, black_marker(), 0);
    }
    let i = find_pattern(s.as_slice(), marker.as_slice(), 0).unwrap();
    let n = s.len();
    assert(i + 3 <= n);
    proof {
        lemma_find_from_bounds(s@, black_marker(), i + 3);
    }
    let end = match find_pattern(s.as_slice(), marker.as_slice(), i + 3) {
        Some(k) => k,
        None => s.len(),
    };
    let mut chunk: Vec<char> = Vec::new();
    for k in i + 3..end
        invariant
            i + 3 <= end <= s@.len(),
            chunk@ == s@.subrange(i + 3, k as int),
    {
        chunk.push(s[k]);
        proof {
            assert(s@.subrange(i + 3, k + 1) =~= s@.subrange(i + 3, k as int).push(s@[k as int]));
        }
    }
    assert(chunk@ == first_black_chunk(s@));
    let j = find_pattern(chunk.as_slice(), slashes.as_slice(), 0).unwrap();
    proof {
        lemma_find_from_bounds(chunk@, seq!['/', '/'], 0);
    }
    let mut result = String::new();
    for k in 0usize..j
        invariant
            j <= chunk@.len(),
            result@ == chunk@.subrange(0, k as int),
    {
        push_char(&mut result, chunk[k]);
        proof {
            assert(chunk@.subrange(0, k + 1) =~= chunk@.subrange(0, k as int).push(chunk@[k as int]));
        }
    }
    result
}

/// A message from the NBoard GUI.
#[derive(Debug)]
pub enum MsgFromGui {
    NBoard(usize),
    SetDepth(usize),
    SetGame(String),
    SetContempt(usize),
    Move(String),
    Hint(usize),
    Go,
    Ping(usize),
    Learn,
    Analyze,
}

/// The five words `g` joined by single spaces.
pub open spec fn joined5(g: Seq<Seq<char>>) -> Seq<char> {
    g[0] + seq![' '] + g[1] + seq![' '] + g[2] + seq![' '] + g[3] + seq![' '] + g[4]
}

/// True if `m` is the message that the words `w` of a line from the GUI
/// say.
pub open spec fn message_of(w: Seq<Seq<char>>, m: MsgFromGui) -> bool {
    match m {
        MsgFromGui::NBoard(v) => w.len() == 2 && w[0] == "nboard"@ && usize_text(w[1]) == Some(v),
        MsgFromGui::SetDepth(d) => w.len() == 3 && w[0] == "set"@ && w[1] == "depth"@ && usize_text(w[2]) == Some(d),
        MsgFromGui::SetGame(g) => w.len() == 7 && w[0] == "set"@ && w[1] == "game"@ && g@ == joined5(w.subrange(2, 7)),
        MsgFromGui::SetContempt(c) => w.len() == 2 && w[0] == "set"@ && w[1] == "contempt"@ && c == 0,
        MsgFromGui::Move(mv) => w.len() == 2 && w[0] == "move"@ && mv@ == w[1],
        MsgFromGui::Hint(h) => w.len() == 1 && w[0] == "hint"@ && h == 0,
        MsgFromGui::Go => w.len() == 1 && w[0] == "go"@,
        MsgFromGui::Ping(p) => w.len() == 2 && w[0] == "ping"@ && usize_text(w[1]) == Some(p),
        MsgFromGui::Learn => w.len() == 1 && w[0] == "learn"@,
        MsgFromGui::Analyze => w.len() == 1 && w[0] == "analyze"@,
    }
}

/// True if the words `w` have the shape of a message this engine knows.
pub open spec fn known_message(w: Seq<Seq<char>>) -> bool {
    ||| (w.len() == 2 && w[0] == "nboard"@)
    ||| (w.len() == 3 && w[0] == "set"@ && w[1] == "depth"@)
    ||| (w.len() == 7 && w[0] == "set"@ && w[1] == "game"@)
    ||| (w.len() == 2 && w[0] == "set"@ && w[1] == "contempt"@)
    ||| (w.len() == 2 && w[0] == "move"@)
    ||| (w.len() == 1 && w[0] == "hint"@)
    ||| (w.len() == 1 && w[0] == "go"@)
    ||| (w.len() == 2 && w[0] == "ping"@)
    ||| (w.len() == 1 && w[0] == "learn"@)
    ||| (w.len() == 1 && w[0] == "analyze"@)
}

/// True if the numbers that the message's words must carry are numbers.
pub open spec fn message_numbers_ok(w: Seq<Seq<char>>) -> bool {
    &&& (w.len() == 2 && w[0] == "nboard"@ ==> usize_text(w[1]) is Some)
    &&& (w.len() == 3 && w[0] == "set"@ && w[1] == "depth"@ ==> usize_text(w[2]) is Some)
    &&& (w.len() == 2 && w[0] == "ping"@ ==> usize_text(w[1]) is Some)
}

/// True if the numbers that the message's words must carry are numbers:
/// the lines `parse_msg` takes.
pub fn message_numbers_valid(msg: &str) -> (r: bool)
    ensures
        r == message_numbers_ok(words(msg@)),
{
    let chars = str_chars(msg);
    let w = split_words(chars.as_slice());
    let ghost ws = words(msg@);
    proof {
        assert forall|k: int| 0 <= k < w@.len() implies (#[trigger] w@[k])@ == ws[k] by {}
    }
    let n = w.len();
    if n == 2 && word_is(&w[0], "nboard") && parse_usize(w[1].as_slice()).is_none() {
        return false;
    }
    if n == 3 && word_is(&w[0], "set") && word_is(&w[1], "depth") && parse_usize(w[2].as_slice()).is_none() {
        return false;
    }
    if n == 2 && word_is(&w[0], "ping") && parse_usize(w[1].as_slice()).is_none() {
        return false;
    }
    true
}

fn word_is(w: &Vec<char>, lit: &str) -> (r: bool)
    ensures
        r == (w@ == lit@),
{
    let l = str_chars(lit);
    if w.len() != l.len() {
        return false;
    }
    for k in 0usize..w.len()
        invariant
            w@.len() == l@.len(),
            l@ == lit@,
            forall|m: int| 0 <= m < k ==> w@[m] == l@[m],
    {
        if w[k] != l[k] {
            return false;
        }
    }
    proof {
        assert(w@ =~= l@);
    }
    true
}

/// Reads one line from the NBoard GUI as a message; a line of unknown
/// shape is refused with the error "testing".
pub fn parse_msg(msg: &str) -> (r: Result<MsgFromGui, NboardError>)
    requires
        message_numbers_ok(words(msg@)),
    ensures
        r is Ok <==> known_message(words(msg@)),
        r matches Ok(m) ==> message_of(words(msg@), m),
        r matches Err(e) ==> e.message() == "testing"@,
{
    let chars = str_chars(msg);
    let w = split_words(chars.as_slice());
    let ghost ws = words(msg@);
    proof {
        assert forall|k: int| 0 <= k < w@.len() implies (#[trigger] w@[k])@ == ws[k] by {}
    }
    let n = w.len();
    if n == 2 && word_is(&w[0], "nboard") {
        let v = parse_usize(w[1].as_slice()).unwrap();
        return Ok(MsgFromGui::NBoard(v));
    }
    if n == 3 && word_is(&w[0], "set") && word_is(&w[1], "depth") {
        let d = parse_usize(w[2].as_slice()).unwrap();
        return Ok(MsgFromGui::SetDepth(d));
    }
    if n == 7 && word_is(&w[0], "set") && word_is(&w[1], "game") {
        let mut g: Vec<char> = Vec::new();
        g.extend_from_slice(w[2].as_slice());
        g.push(' ');
        g.extend_from_slice(w[3].as_slice());
        g.push(' ');
        g.extend_from_slice(w[4].as_slice());
        g.push(' ');
        g.extend_from_slice(w[5].as_slice());
        g.push(' ');
        g.extend_from_slice(w[6].as_slice());
        proof {
            assert(g@ =~= joined5(ws.subrange(2, 7)));
        }
        return Ok(MsgFromGui::SetGame(string_of(g.as_slice())));
    }
    if n == 2 && word_is(&w[0], "set") && word_is(&w[1], "contempt") {
        return Ok(MsgFromGui::SetContempt(0));
    }
    if n == 2 && word_is(&w[0], "move") {
        return Ok(MsgFromGui::Move(string_of(w[1].as_slice())));
    }
    if n == 1 && word_is(&w[0], "hint") {
        return Ok(MsgFromGui::Hint(0));
    }
    if n == 1 && word_is(&w[0], "go") {
        return Ok(MsgFromGui::Go);
    }
    if n == 2 && word_is(&w[0], "ping") {
        let p = parse_usize(w[1].as_slice()).unwrap();
        return Ok(MsgFromGui::Ping(p));
    }
    if n == 1 && word_is(&w[0], "learn") {
        return Ok(MsgFromGui::Learn);
    }
    if n == 1 && word_is(&w[0], "analyze") {
        return Ok(MsgFromGui::Analyze);
    }
    NboardError::err("testing")
}

} // verus!
