//! What the search result means: the line that the search returns is a
//! forced mate, the shortest that the attacker has against the longest
//! resistance, and there is one exactly when mate can be forced.

use crate::attack::in_check;
use crate::checks::{avoidances, checkmate, checks, lemma_avoidance_applies, lemma_check_applies};
use crate::common::{Move, SidedPiece};
use crate::position::{
    cells_after, cells_wf, first_hand_after, one_king, replay, replayable, Position,
};
use crate::search::{
    attack, counters, defend, longer, pick_longest, pick_shortest, replies, shorter,
};
use vstd::prelude::*;

verus! {

/// The defender's answer to the move `mv`, with one move less to search.
pub open spec fn defence_to(
    cells: Seq<SidedPiece>,
    hand: Seq<i8>,
    depth: nat,
    mv: Move,
) -> Option<Seq<Move>> {
    defend(cells_after(cells, mv), first_hand_after(hand, mv), (depth - 1) as nat)
}

/// The attacker's answer to the move `mv`, with one move less to search.
pub open spec fn attack_after(
    cells: Seq<SidedPiece>,
    hand: Seq<i8>,
    depth: nat,
    mv: Move,
) -> Option<Seq<Move>> {
    attack(cells_after(cells, mv), first_hand_after(hand, mv), (depth - 1) as nat)
}

/// Whether answer `i` is a line and `line` is move `i` followed by it.
pub open spec fn opens_with(
    moves: Seq<Move>,
    answers: Seq<Option<Seq<Move>>>,
    i: int,
    line: Seq<Move>,
) -> bool {
    answers[i] matches Some(rest) && line == seq![moves[i]] + rest
}

/// The attacker's choice among the first `n` moves: there is no line if
/// none of the moves has an answer that is a line; else the line opens with
/// one of the moves, goes on with the answer to it, and is no longer than any
/// other such line.
pub proof fn lemma_pick_shortest(moves: Seq<Move>, answers: Seq<Option<Seq<Move>>>, n: nat)
    requires
        n <= moves.len(),
        n <= answers.len(),
    ensures
        match pick_shortest(moves, answers, n) {
            None => forall|i: int| 0 <= i < n ==> #[trigger] answers[i] is None,
            Some(line) => {
                &&& exists|i: int| 0 <= i < n && #[trigger] opens_with(moves, answers, i, line)
                &&& forall|i: int|
                    0 <= i < n ==> (#[trigger] answers[i] matches Some(rest) ==> line.len()
                        <= rest.len() + 1)
            },
        },
    decreases n,
{
    if n > 0 {
        lemma_pick_shortest(moves, answers, (n - 1) as nat);
        let best = pick_shortest(moves, answers, (n - 1) as nat);
        match answers[n - 1] {
            None => {
                match best {
                    Some(line) => {
                        let i = choose|i: int|
                            0 <= i < n - 1 && #[trigger] opens_with(moves, answers, i, line);
                        assert(opens_with(moves, answers, i, line));
                    },
                    None => {},
                }
            },
            Some(rest) => {
                let line = shorter(best, moves[n - 1], rest).unwrap();
                if line == seq![moves[n - 1]] + rest {
                    assert(opens_with(moves, answers, n - 1, line));
                } else {
                    let i = choose|i: int|
                        0 <= i < n - 1 && #[trigger] opens_with(moves, answers, i, best.unwrap());
                    assert(opens_with(moves, answers, i, line));
                }
            },
        }
    }
}

/// Whether each of the first `n` answers is a line that, with its move in
/// front, is no longer than `line`.
pub open spec fn all_within(answers: Seq<Option<Seq<Move>>>, n: nat, line: Seq<Move>) -> bool {
    forall|i: int|
        0 <= i < n ==> (#[trigger] answers[i] matches Some(rest) && rest.len() + 1 <= line.len())
}

/// The defender's choice among the first `n` moves: there is no line if one
/// of the moves has no answer that is a line; else each of them has one, and
/// the line, if there is a move at all, opens with one of the moves, goes on
/// with the answer to it, and is no shorter than any other such line.
pub proof fn lemma_pick_longest(moves: Seq<Move>, answers: Seq<Option<Seq<Move>>>, n: nat)
    requires
        n <= moves.len(),
        n <= answers.len(),
    ensures
        pick_longest(moves, answers, n) is None ==> exists|i: int|
            0 <= i < n && #[trigger] answers[i] is None,
        pick_longest(moves, answers, n) matches Some(line) ==> all_within(answers, n, line),
        pick_longest(moves, answers, n) matches Some(line) ==> (n == 0 ==> line.len() == 0),
        pick_longest(moves, answers, n) matches Some(line) ==> (n > 0 ==> exists|i: int|
            0 <= i < n && #[trigger] opens_with(moves, answers, i, line)),
    decreases n,
{
    if n > 0 {
        lemma_pick_longest(moves, answers, (n - 1) as nat);
        match pick_longest(moves, answers, (n - 1) as nat) {
            None => {
                let i = choose|i: int| 0 <= i < n - 1 && #[trigger] answers[i] is None;
                assert(answers[i] is None);
            },
            Some(longest) => {
                match answers[n - 1] {
                    None => {
                        assert(answers[n - 1] is None);
                    },
                    Some(rest) => {
                        let line = longer(longest, moves[n - 1], rest);
                        assert(pick_longest(moves, answers, n) == Some(line));
                        assert(all_within(answers, (n - 1) as nat, longest));
                        assert(longest.len() <= line.len());
                        assert(rest.len() + 1 <= line.len());
                        assert forall|i: int| 0 <= i < n implies (#[trigger] answers[i] matches Some(
                            r,
                        ) && r.len() + 1 <= line.len()) by {
                            if i < n - 1 {
                                assert(answers[i] is Some);
                            }
                        }
                        assert(all_within(answers, n, line));
                        if longest.len() < rest.len() + 1 {
                            assert(opens_with(moves, answers, n - 1, line));
                        } else {
                            assert(n - 1 > 0);
                            let i = choose|i: int|
                                0 <= i < n - 1 && #[trigger] opens_with(moves, answers, i, longest);
                            assert(opens_with(moves, answers, i, line));
                        }
                    },
                }
            },
        }
    } else {
        assert(pick_longest(moves, answers, n) == Some(Seq::<Move>::empty()));
    }
}

/// Whether `line` is a forced mate as played: with the first player to
/// move, the line opens with a checking move and goes on as a forced mate with
/// the second player to move; with the second player to move, the line is
/// empty and the player is checkmated, or it opens with an escape from check
/// and goes on as a forced mate with the first player to move.
pub open spec fn mating_line(
    cells: Seq<SidedPiece>,
    hand: Seq<i8>,
    line: Seq<Move>,
    first_to_move: bool,
) -> bool
    decreases line.len(),
{
    if first_to_move {
        &&& line.len() > 0
        &&& checks(cells, hand).contains(line[0])
        &&& mating_line(
            cells_after(cells, line[0]),
            first_hand_after(hand, line[0]),
            line.skip(1),
            false,
        )
    } else if line.len() == 0 {
        checkmate(cells)
    } else {
        &&& avoidances(cells).contains(line[0])
        &&& mating_line(
            cells_after(cells, line[0]),
            first_hand_after(hand, line[0]),
            line.skip(1),
            true,
        )
    }
}

/// The attacker's line has an odd number of moves, at most `depth`, and is a
/// forced mate as played: every move of the first player in it is a checking
/// move, every move of the second player an escape from check, and at its end
/// the second player is checkmated.
pub proof fn lemma_attack_line(cells: Seq<SidedPiece>, hand: Seq<i8>, depth: nat)
    ensures
        attack(cells, hand, depth) matches Some(line) ==> {
            &&& line.len() <= depth
            &&& line.len() % 2 == 1
            &&& mating_line(cells, hand, line, true)
        },
    decreases depth, 1int,
{
    let moves = checks(cells, hand);
    let answers = replies(cells, hand, depth, moves);
    lemma_pick_shortest(moves, answers, moves.len());
    match attack(cells, hand, depth) {
        Some(line) => {
            let i = choose|i: int|
                0 <= i < moves.len() && #[trigger] opens_with(moves, answers, i, line);
            let mv = moves[i];
            let rest = answers[i].unwrap();
            lemma_defend_line(
                cells_after(cells, mv),
                first_hand_after(hand, mv),
                (depth - 1) as nat,
            );
            assert(line.skip(1) =~= rest);
            assert(line[0] == mv);
        },
        None => {},
    }
}

/// The defender's line has an even number of moves, at most `depth`, and is
/// a forced mate as played with the second player to move.
pub proof fn lemma_defend_line(cells: Seq<SidedPiece>, hand: Seq<i8>, depth: nat)
    ensures
        defend(cells, hand, depth) matches Some(line) ==> {
            &&& line.len() <= depth
            &&& line.len() % 2 == 0
            &&& mating_line(cells, hand, line, false)
        },
    decreases depth, 0int,
{
    let moves = avoidances(cells);
    if moves.len() > 0 && depth > 0 {
        let answers = counters(cells, hand, depth, moves);
        lemma_pick_longest(moves, answers, moves.len());
        match defend(cells, hand, depth) {
            Some(line) => {
                let i = choose|i: int|
                    0 <= i < moves.len() && #[trigger] opens_with(moves, answers, i, line);
                let mv = moves[i];
                let rest = answers[i].unwrap();
                lemma_attack_line(
                    cells_after(cells, mv),
                    first_hand_after(hand, mv),
                    (depth - 1) as nat,
                );
                assert(line.skip(1) =~= rest);
                assert(line[0] == mv);
            },
            None => {},
        }
    }
}

/// The attacker finds no line exactly when the defender has an answer
/// without mate to every checking move.
pub proof fn lemma_attack_none(cells: Seq<SidedPiece>, hand: Seq<i8>, depth: nat)
    requires
        depth > 0,
    ensures
        attack(cells, hand, depth) is None <==> forall|mv: Move|
            checks(cells, hand).contains(mv) ==> #[trigger] defence_to(cells, hand, depth, mv)
                is None,
{
    let moves = checks(cells, hand);
    let answers = replies(cells, hand, depth, moves);
    lemma_pick_shortest(moves, answers, moves.len());
    match attack(cells, hand, depth) {
        None => {
            assert forall|mv: Move| moves.contains(mv) implies #[trigger] defence_to(
                cells,
                hand,
                depth,
                mv,
            ) is None by {
                let i = choose|i: int| 0 <= i < moves.len() && moves[i] == mv;
                assert(answers[i] is None);
            }
        },
        Some(line) => {
            let i = choose|i: int|
                0 <= i < moves.len() && #[trigger] opens_with(moves, answers, i, line);
            assert(moves.contains(moves[i]));
            assert(defence_to(cells, hand, depth, moves[i]) is Some);
        },
    }
}

/// The attacker's line is a shortest one: no checking move is answered by
/// the defender with a line that would make a shorter mate.
pub proof fn lemma_attack_shortest(cells: Seq<SidedPiece>, hand: Seq<i8>, depth: nat, mv: Move)
    requires
        depth > 0,
        checks(cells, hand).contains(mv),
    ensures
        defence_to(cells, hand, depth, mv) matches Some(rest) ==> attack(cells, hand, depth)
            matches Some(line) && line.len() <= rest.len() + 1,
{
    let moves = checks(cells, hand);
    let answers = replies(cells, hand, depth, moves);
    lemma_pick_shortest(moves, answers, moves.len());
    let i = choose|i: int| 0 <= i < moves.len() && moves[i] == mv;
    assert(answers[i] == defence_to(cells, hand, depth, mv));
}

/// The defender's line is a longest one: where the defender has an escape
/// and an answer, the attacker forces mate after every escape, by a line that
/// makes no longer a mate than the defender's.
pub proof fn lemma_defend_longest(cells: Seq<SidedPiece>, hand: Seq<i8>, depth: nat, mv: Move)
    requires
        depth > 0,
        avoidances(cells).contains(mv),
    ensures
        defend(cells, hand, depth) matches Some(line) ==> attack_after(cells, hand, depth, mv)
            matches Some(rest) && rest.len() + 1 <= line.len(),
{
    let moves = avoidances(cells);
    let answers = counters(cells, hand, depth, moves);
    lemma_pick_longest(moves, answers, moves.len());
    let i = choose|i: int| 0 <= i < moves.len() && moves[i] == mv;
    assert(answers[i] == attack_after(cells, hand, depth, mv));
}

/// Whether the first player, to move, can force checkmate within `depth`
/// moves: it has a checking move after which the second player is mated within
/// `depth - 1` moves.
pub open spec fn forced_mate(cells: Seq<SidedPiece>, hand: Seq<i8>, depth: nat) -> bool
    decreases depth,
{
    depth > 0 && exists|mv: Move|
        #[trigger] checks(cells, hand).contains(mv) && mated_within(
            cells_after(cells, mv),
            first_hand_after(hand, mv),
            (depth - 1) as nat,
        )
}

/// Whether the second player, to move, is mated within `depth` moves: it is
/// checkmated, or moves are left and after each of its escapes from check the
/// first player can force checkmate within `depth - 1` moves.
pub open spec fn mated_within(cells: Seq<SidedPiece>, hand: Seq<i8>, depth: nat) -> bool
    decreases depth,
{
    checkmate(cells) || (depth > 0 && forall|mv: Move|
        #[trigger] avoidances(cells).contains(mv) ==> forced_mate(
            cells_after(cells, mv),
            first_hand_after(hand, mv),
            (depth - 1) as nat,
        ))
}

/// The attacker finds a line exactly when the first player can force
/// checkmate within `depth` moves.
pub proof fn lemma_attack_finds_forced_mate(cells: Seq<SidedPiece>, hand: Seq<i8>, depth: nat)
    ensures
        attack(cells, hand, depth) is Some <==> forced_mate(cells, hand, depth),
    decreases depth, 1int,
{
    let moves = checks(cells, hand);
    let answers = replies(cells, hand, depth, moves);
    lemma_pick_shortest(moves, answers, moves.len());
    if depth > 0 {
        match attack(cells, hand, depth) {
            Some(line) => {
                let i = choose|i: int|
                    0 <= i < moves.len() && #[trigger] opens_with(moves, answers, i, line);
                let mv = moves[i];
                lemma_defend_finds_mate(
                    cells_after(cells, mv),
                    first_hand_after(hand, mv),
                    (depth - 1) as nat,
                );
                assert(moves.contains(mv) && mated_within(
                    cells_after(cells, mv),
                    first_hand_after(hand, mv),
                    (depth - 1) as nat,
                ));
            },
            None => {
                if forced_mate(cells, hand, depth) {
                    let mv = choose|mv: Move|
                        #[trigger] checks(cells, hand).contains(mv) && mated_within(
                            cells_after(cells, mv),
                            first_hand_after(hand, mv),
                            (depth - 1) as nat,
                        );
                    let i = choose|i: int| 0 <= i < moves.len() && moves[i] == mv;
                    lemma_defend_finds_mate(
                        cells_after(cells, mv),
                        first_hand_after(hand, mv),
                        (depth - 1) as nat,
                    );
                    assert(answers[i] is None);
                }
            },
        }
    }
}

/// The defender hands back a line exactly when the second player is mated
/// within `depth` moves.
pub proof fn lemma_defend_finds_mate(cells: Seq<SidedPiece>, hand: Seq<i8>, depth: nat)
    ensures
        defend(cells, hand, depth) is Some <==> mated_within(cells, hand, depth),
    decreases depth, 0int,
{
    let moves = avoidances(cells);
    if moves.len() > 0 && depth > 0 {
        let answers = counters(cells, hand, depth, moves);
        lemma_pick_longest(moves, answers, moves.len());
        match defend(cells, hand, depth) {
            Some(line) => {
                assert forall|mv: Move| #[trigger] moves.contains(mv) implies forced_mate(
                    cells_after(cells, mv),
                    first_hand_after(hand, mv),
                    (depth - 1) as nat,
                ) by {
                    let i = choose|i: int| 0 <= i < moves.len() && moves[i] == mv;
                    assert(answers[i] is Some);
                    lemma_attack_finds_forced_mate(
                        cells_after(cells, mv),
                        first_hand_after(hand, mv),
                        (depth - 1) as nat,
                    );
                }
            },
            None => {
                let i = choose|i: int| 0 <= i < moves.len() && #[trigger] answers[i] is None;
                let mv = moves[i];
                assert(moves.contains(mv));
                lemma_attack_finds_forced_mate(
                    cells_after(cells, mv),
                    first_hand_after(hand, mv),
                    (depth - 1) as nat,
                );
                assert(!forced_mate(
                    cells_after(cells, mv),
                    first_hand_after(hand, mv),
                    (depth - 1) as nat,
                ));
            },
        }
    }
}

/// Replaying a line that opens with `mv` is replaying the rest of it on the
/// position after `mv`.
proof fn lemma_replay_shift(b: Position, line: Seq<Move>, i: int)
    requires
        line.len() > 0,
        0 <= i < line.len(),
    ensures
        replay(b, line, i + 1) == replay(b.after(line[0]), line.skip(1), i),
    decreases i,
{
    reveal_with_fuel(replay, 2);
    if i > 0 {
        lemma_replay_shift(b, line, i - 1);
        assert(line.skip(1)[i - 1] == line[i]);
    }
}

/// A forced mate as played can be replayed on the position that it starts
/// from: each of its moves can be carried out on the position that the moves
/// before it lead to.
pub proof fn lemma_mating_line_replayable(b: Position, line: Seq<Move>, first_to_move: bool)
    requires
        cells_wf(b.cells),
        b.first_hand.len() == 7,
        one_king(b.cells),
        first_to_move ==> !in_check(b.cells),
        mating_line(b.cells, b.first_hand, line, first_to_move),
    ensures
        replayable(b, line),
    decreases line.len(),
{
    if line.len() > 0 {
        let mv = line[0];
        let next = b.after(mv);
        if first_to_move {
            lemma_check_applies(b, mv);
        } else {
            lemma_avoidance_applies(b, mv);
        }
        lemma_mating_line_replayable(next, line.skip(1), !first_to_move);
        assert forall|i: int| 0 <= i < line.len() implies #[trigger] replay(b, line, i).admits(
            line[i],
        ) by {
            if i > 0 {
                lemma_replay_shift(b, line, i - 1);
                assert(replay(next, line.skip(1), i - 1).admits(line.skip(1)[i - 1]));
            }
        }
    }
}

} // verus!
