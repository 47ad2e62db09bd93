use vstd::prelude::*;
use crate::game::GameState;
use crate::mcts_data::MctsResult;
use crate::text::push_char;

verus! {

/// `n` copies of `c`.
pub open spec fn repeated(c: char, n: nat) -> Seq<char> {
    Seq::new(n, |i: int| c)
}

/// The length of the filled part of a bar of `len` characters showing
/// `num / den`.
pub open spec fn bar_fill(len: int, num: int, den: int) -> int {
    (num * len) / den
}

/// True if a bar of `len` characters can show `num / den`: the division is
/// defined, the product fits, and the filled part fits in the bar.
pub open spec fn bar_showable(len: int, num: int, den: int) -> bool {
    &&& den > 0
    &&& num * len <= usize::MAX
    &&& bar_fill(len, num, den) <= len
}

/// The text of a bar showing `num / den` over `len` characters, as
/// "B [===|   ] W": the filled part grows towards White.
pub open spec fn bar_text(len: int, num: int, den: int) -> Seq<char> {
    let fill = bar_fill(len, num, den);
    seq!['B', ' ', '['] + repeated('=', fill as nat) + seq!['|'] + repeated(' ', (len - fill) as nat) + seq![
        ']',
        ' ',
        'W',
    ]
}

/// Appends `n` copies of `c` to `s`.
fn push_repeated(s: &mut String, c: char, n: usize)
    ensures
        final(s)@ == old(s)@ + repeated(c, n as nat),
{
    for i in 0usize..n
        invariant
            s@ == old(s)@ + repeated(c, i as nat),
    {
        push_char(s, c);
        proof {
            assert(repeated(c, (i + 1) as nat) =~= repeated(c, i as nat).push(c));
        }
    }
}

/// A text bar showing the share of White's wins among the plays.
pub fn pretty_ratio_bar_text(len_chars: usize, numerator_white_wins: usize, denominator_plays: usize) -> (r: String)
    requires
        bar_showable(len_chars as int, numerator_white_wins as int, denominator_plays as int),
    ensures
        r@ == bar_text(len_chars as int, numerator_white_wins as int, denominator_plays as int),
{
    let mut text_bar = String::new();
    push_char(&mut text_bar, 'B');
    push_char(&mut text_bar, ' ');
    push_char(&mut text_bar, '[');
    let bar_len = (numerator_white_wins * len_chars) / denominator_plays;
    push_repeated(&mut text_bar, '=', bar_len);
    push_char(&mut text_bar, '|');
    push_repeated(&mut text_bar, ' ', len_chars - bar_len);
    push_char(&mut text_bar, ']');
    push_char(&mut text_bar, ' ');
    push_char(&mut text_bar, 'W');
    proof {
        assert(text_bar@ =~= bar_text(len_chars as int, numerator_white_wins as int, denominator_plays as int));
    }
    text_bar
}

/// The key a result is judged by: its wins per ten thousand plays once
/// every result is fully explored, its plays before.
pub open spec fn judge_key<S: GameState>(r: MctsResult<S>, all_saturated: bool) -> int {
    if all_saturated {
        (r.wins * 10000) / (r.plays as int)
    } else {
        r.plays as int
    }
}

/// True if every result is fully explored.
pub open spec fn all_saturated<S: GameState>(results: Seq<MctsResult<S>>) -> bool {
    forall|k: int| 0 <= k < results.len() ==> (#[trigger] results[k]).is_saturated
}

/// True if the results can be judged: there is one, and when all are
/// fully explored each was played and its wins per ten thousand fit.
pub open spec fn judgeable<S: GameState>(results: Seq<MctsResult<S>>) -> bool {
    &&& results.len() > 0
    &&& all_saturated(results) ==> forall|k: int|
        0 <= k < results.len() ==> (#[trigger] results[k]).plays > 0 && results[k].wins * 10000 <= usize::MAX
}

/// The choice of result `r` among `results` is the one to play: while some
/// result is not fully explored, the most played, the last of them among
/// equals; once all are, the best wins per ten thousand plays, the last of
/// them among equals.
pub open spec fn best_choice<S: GameState>(results: Seq<MctsResult<S>>, r: int) -> bool {
    &&& 0 <= r < results.len()
    &&& (exists|k: int| 0 <= k < results.len() && !(#[trigger] results[k]).is_saturated) ==> {
        &&& forall|k: int| 0 <= k < results.len() ==> (#[trigger] results[k]).plays <= results[r].plays
        &&& forall|k: int| r < k < results.len() ==> (#[trigger] results[k]).plays < results[r].plays
    }
    &&& (forall|k: int| 0 <= k < results.len() ==> (#[trigger] results[k]).is_saturated) ==> {
        &&& forall|k: int|
            0 <= k < results.len() ==> ((#[trigger] results[k]).wins * 10000) / (results[k].plays as int) <= (
            results[r].wins * 10000) / (results[r].plays as int)
        &&& forall|k: int|
            r < k < results.len() ==> ((#[trigger] results[k]).wins * 10000) / (results[k].plays as int) < (
            results[r].wins * 10000) / (results[r].plays as int)
    }
}

/// An index whose result is judged at least as good as every other, and
/// better than every later one, is the one to play: the most played while
/// some result is not fully explored, the best wins per ten thousand plays
/// once all are; the last among equals either way.
pub proof fn lemma_best_choice<S: GameState>(results: Seq<MctsResult<S>>, r: int)
    requires
        0 <= r < results.len(),
        forall|k: int|
            0 <= k < results.len() ==> judge_key(#[trigger] results[k], all_saturated(results)) <= judge_key(
                results[r],
                all_saturated(results),
            ),
        forall|k: int|
            r < k < results.len() ==> judge_key(#[trigger] results[k], all_saturated(results)) < judge_key(
                results[r],
                all_saturated(results),
            ),
    ensures
        best_choice(results, r),
{
    if exists|k: int| 0 <= k < results.len() && !(#[trigger] results[k]).is_saturated {
        assert(!all_saturated(results));
    }
}

/// The index of the result to play: once every result is fully explored
/// the best ratio of wins to plays, before that the most played; among
/// equals, the last one.
pub fn best_result_index<S: GameState>(results: &Vec<MctsResult<S>>) -> (r: usize)
    requires
        judgeable(results@),
    ensures
        r < results@.len(),
        forall|k: int|
            0 <= k < results@.len() ==> judge_key(#[trigger] results@[k], all_saturated(results@)) <= judge_key(
                results@[r as int],
                all_saturated(results@),
            ),
        forall|k: int|
            r < k < results@.len() ==> judge_key(#[trigger] results@[k], all_saturated(results@)) < judge_key(
                results@[r as int],
                all_saturated(results@),
            ),
        best_choice(results@, r as int),
{
    let mut saturated = true;
    for k in 0usize..results.len()
        invariant
            saturated == forall|i: int| 0 <= i < k ==> (#[trigger] results@[i]).is_saturated,
    {
        saturated = saturated && results[k].is_saturated;
    }
    let ghost all = all_saturated(results@);
    assert(saturated == all);
    let mut best: usize = 0;
    let mut best_key: usize = if saturated {
        (results[0].wins * 10000) / results[0].plays
    } else {
        results[0].plays
    };
    for k in 1usize..results.len()
        invariant
            judgeable(results@),
            saturated == all,
            all == all_saturated(results@),
            best < k,
            best_key == judge_key(results@[best as int], all),
            forall|i: int| 0 <= i < k ==> judge_key(#[trigger] results@[i], all) <= best_key,
            forall|i: int| best < i < k ==> judge_key(#[trigger] results@[i], all) < best_key,
    {
        let key = if saturated {
            (results[k].wins * 10000) / results[k].plays
        } else {
            results[k].plays
        };
        if key >= best_key {
            best = k;
            best_key = key;
        }
    }
    proof {
        lemma_best_choice(results@, best as int);
    }
    best
}

/// True if a timed search should stop: once it has run its main time, when
/// the root has won more than half of its plays (more than 500 wins per
/// thousand plays, rounded down), or once it has also run its extra time.
pub fn should_stop(wins: usize, plays: usize, past_main: bool, past_extra: bool) -> (r: bool)
    requires
        past_main ==> plays > 0 && wins * 1000 <= usize::MAX,
    ensures
        r == (past_main && ((wins * 1000) / (plays as int) > 500 || past_extra)),
{
    if !past_main {
        return false;
    }
    (wins * 1000) / plays > 500 || past_extra
}

} // verus!
