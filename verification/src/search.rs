//! What the mate search computes: the attacker's shortest forced mate against
//! the defender's longest resistance, as a function of the position.

use crate::checks::{avoidances, checks};
use crate::common::{Move, SidedPiece};
use crate::position::{cells_after, first_hand_after};
use vstd::prelude::*;

verus! {

/// The shorter of the best line found so far and the line that opens with
/// `mv` and goes on with `rest`: the new line wins only if it is strictly
/// shorter, or if there is no line yet.
pub open spec fn shorter(best: Option<Seq<Move>>, mv: Move, rest: Seq<Move>) -> Option<Seq<Move>> {
    match best {
        None => Some(seq![mv] + rest),
        Some(line) => if rest.len() + 1 < line.len() {
            Some(seq![mv] + rest)
        } else {
            best
        },
    }
}

/// The longer of the longest line found so far and the line that opens with
/// `mv` and goes on with `rest`: the new line wins only if it is strictly
/// longer.
pub open spec fn longer(longest: Seq<Move>, mv: Move, rest: Seq<Move>) -> Seq<Move> {
    if longest.len() < rest.len() + 1 {
        seq![mv] + rest
    } else {
        longest
    }
}

/// The attacker's choice among the first `n` of `moves`, where `answers`
/// holds for each move the line that follows it, if the move wins: the
/// shortest of the lines made of a move and what follows it, the first such in
/// case of a tie, or `None` if none of the moves wins.
pub open spec fn pick_shortest(moves: Seq<Move>, answers: Seq<Option<Seq<Move>>>, n: nat) -> Option<
    Seq<Move>,
>
    decreases n,
{
    if n == 0 {
        None
    } else {
        let best = pick_shortest(moves, answers, (n - 1) as nat);
        match answers[n - 1] {
            None => best,
            Some(rest) => shorter(best, moves[n - 1], rest),
        }
    }
}

/// The defender's choice among the first `n` of `moves`, where `answers`
/// holds for each move the line that follows it, if the move loses: `None`
/// if one of the moves does not lose, else the longest of the lines made of a
/// move and what follows it, the first such in case of a tie, and the empty
/// line if there is no move.
pub open spec fn pick_longest(moves: Seq<Move>, answers: Seq<Option<Seq<Move>>>, n: nat) -> Option<
    Seq<Move>,
>
    decreases n,
{
    if n == 0 {
        Some(Seq::empty())
    } else {
        match pick_longest(moves, answers, (n - 1) as nat) {
            None => None,
            Some(longest) => match answers[n - 1] {
                None => None,
                Some(rest) => Some(longer(longest, moves[n - 1], rest)),
            },
        }
    }
}

/// The defender's answers to each of `moves`, with one move less to search.
pub open spec fn replies(
    cells: Seq<SidedPiece>,
    hand: Seq<i8>,
    depth: nat,
    moves: Seq<Move>,
) -> Seq<Option<Seq<Move>>>
    decreases depth, 0int,
{
    Seq::new(
        moves.len(),
        |i: int|
            if depth > 0 {
                defend(
                    cells_after(cells, moves[i]),
                    first_hand_after(hand, moves[i]),
                    (depth - 1) as nat,
                )
            } else {
                None
            },
    )
}

/// The attacker's answer with the first player to move: the shortest line of
/// at most `depth` moves, opening with a check, that ends in checkmate whatever
/// the second player does, or `None` if no check forces mate in that many
/// moves.
pub open spec fn attack(cells: Seq<SidedPiece>, hand: Seq<i8>, depth: nat) -> Option<Seq<Move>>
    decreases depth, 1int,
{
    let moves = checks(cells, hand);
    pick_shortest(moves, replies(cells, hand, depth, moves), moves.len())
}

/// The attacker's answers to each of `moves`, with one move less to search.
pub open spec fn counters(
    cells: Seq<SidedPiece>,
    hand: Seq<i8>,
    depth: nat,
    moves: Seq<Move>,
) -> Seq<Option<Seq<Move>>>
    decreases depth, 0int,
{
    Seq::new(
        moves.len(),
        |i: int|
            if depth > 0 {
                attack(
                    cells_after(cells, moves[i]),
                    first_hand_after(hand, moves[i]),
                    (depth - 1) as nat,
                )
            } else {
                None
            },
    )
}

/// The defender's answer with the second player to move: the empty line if
/// the player is checkmated; `None` if it is not and `depth` is zero, or if one
/// of its escapes from check cannot be answered by a forced mate within
/// `depth - 1` moves; else the escape that puts the mate off longest, followed
/// by the attacker's answer to it.
pub open spec fn defend(cells: Seq<SidedPiece>, hand: Seq<i8>, depth: nat) -> Option<Seq<Move>>
    decreases depth, 1int,
{
    let escapes = avoidances(cells);
    if escapes.len() == 0 {
        Some(Seq::empty())
    } else if depth == 0 {
        None
    } else {
        pick_longest(escapes, counters(cells, hand, depth, escapes), escapes.len())
    }
}

} // verus!
