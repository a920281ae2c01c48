//! The mate search: whether the first player can force checkmate within a
//! given number of moves, and by which line.

use crate::attack::in_check;
use crate::board::Board;
use crate::checks::{avoidances, checks, lemma_avoidance_applies, lemma_check_applies};
use crate::common::{Move, Piece, SidedPiece, BOARD_SIZE, HAND_TYPES, PIECE_KING};
use crate::mate::{
    defence_to, forced_mate, lemma_attack_finds_forced_mate, lemma_attack_line, lemma_attack_none,
    lemma_mating_line_replayable, mating_line,
};
use crate::pos::P;
use crate::position::{cells_wf, one_king, replay, replayable, Position};
use crate::search::{attack, counters, defend, pick_longest, pick_shortest, replies};
use vstd::prelude::*;

verus! {

/// How many pieces of the kind `kind` a full set has, both players' taken
/// together; the king is not counted.
pub open spec fn full_set(kind: int) -> int {
    if kind == 0 {
        18
    } else if 1 <= kind <= 4 {
        4
    } else if kind == 5 || kind == 6 {
        2
    } else {
        0
    }
}

/// Whether the cell holds a piece of the kind `kind`, promoted or not, of
/// either player.
pub open spec fn holds_kind(sided: SidedPiece, kind: int) -> bool {
    !sided.is_empty() && sided.to_piece().capture().0 == kind
}

/// How many of the first `n` cells hold a piece of the kind `kind`.
pub open spec fn count_on_board(cells: Seq<SidedPiece>, kind: int, n: int) -> int
    decreases n,
{
    if n <= 0 {
        0
    } else {
        count_on_board(cells, kind, n - 1) + (if holds_kind(cells[n - 1], kind) {
            1int
        } else {
            0int
        })
    }
}

/// How many pieces of the kind `kind` of a full set are neither on the board
/// nor in the first player's hand.
pub open spec fn spare(b: Position, kind: int) -> int {
    full_set(kind) - b.first_hand[kind] - count_on_board(b.cells, kind, 81)
}

/// Whether the board and the first player's hand together hold no more
/// pieces of any kind than a full set has.
pub open spec fn within_full_set(b: Position) -> bool {
    forall|kind: int| 0 <= kind < 7 ==> #[trigger] spare(b, kind) >= 0
}

/// The count of a kind on the board does not go down as more cells are
/// counted.
proof fn lemma_count_grows(cells: Seq<SidedPiece>, kind: int, m: int, n: int)
    requires
        0 <= m <= n,
    ensures
        0 <= count_on_board(cells, kind, m) <= count_on_board(cells, kind, n),
    decreases n,
{
    if m < n {
        lemma_count_grows(cells, kind, m, n - 1);
    } else if m > 0 {
        lemma_count_grows(cells, kind, m - 1, m - 1);
    }
}

/// For each kind of piece, how many pieces of a full set are neither on the
/// board nor in the first player's hand. A count is negative where the board
/// and the hand together hold more pieces of a kind than a full set has.
pub fn spare_pieces(board: &Board) -> (r: [i32; 7])
    ensures
        forall|kind: int| 0 <= kind < 7 ==> #[trigger] r[kind] == spare(board@, kind),
{
    let ghost start = board@;
    let mut board = board.clone();
    proof {
        board.lemma_shape();
    }
    let mut piece_counts: [i32; 7] = [18, 4, 4, 4, 4, 2, 2];
    let mut i: usize = 0;
    while i < HAND_TYPES
        invariant
            0 <= i <= 7,
            board@ == start,
            start.first_hand.len() == 7,
            forall|kind: int|
                0 <= kind < i ==> #[trigger] piece_counts[kind] == full_set(kind)
                    - start.first_hand[kind],
            forall|kind: int| i <= kind < 7 ==> #[trigger] piece_counts[kind] == full_set(kind),
        decreases 7 - i,
    {
        let held = board.get_first_hand(Piece(i as i8));
        piece_counts[i] = piece_counts[i] - (held as i32);
        i += 1;
    }
    let mut y: i32 = 0;
    while y < BOARD_SIZE
        invariant
            0 <= y <= 9,
            board@ == start,
            start.first_hand.len() == 7,
            forall|kind: int|
                0 <= kind < 7 ==> #[trigger] piece_counts[kind] == full_set(kind)
                    - start.first_hand[kind] - count_on_board(start.cells, kind, y * 9),
        decreases 9 - y,
    {
        let mut x: i32 = 0;
        while x < BOARD_SIZE
            invariant
                0 <= y < 9,
                0 <= x <= 9,
                board@ == start,
                start.first_hand.len() == 7,
                forall|kind: int|
                    0 <= kind < 7 ==> #[trigger] piece_counts[kind] == full_set(kind)
                        - start.first_hand[kind] - count_on_board(start.cells, kind, y * 9 + x),
            decreases 9 - x,
        {
            let piece = board.get_sided_piece(P(y, x));
            if !piece.is_empty() {
                let piece = piece.to_piece().capture();
                if piece.0 != PIECE_KING {
                    proof {
                        lemma_count_grows(start.cells, piece.0 as int, 0, y * 9 + x);
                        lemma_count_bounded(start.cells, piece.0 as int, y * 9 + x);
                    }
                    piece_counts[piece.0 as usize] = piece_counts[piece.0 as usize] - 1;
                }
            }
            x += 1;
        }
        y += 1;
    }
    piece_counts
}

/// No more cells are counted than there are.
proof fn lemma_count_bounded(cells: Seq<SidedPiece>, kind: int, n: int)
    requires
        0 <= n,
    ensures
        count_on_board(cells, kind, n) <= n,
    decreases n,
{
    if n > 0 {
        lemma_count_bounded(cells, kind, n - 1);
    }
}

/// Gives the second player every piece that is neither on the board nor in
/// the first player's hand: for each kind, what a full set has, less the first
/// player's count, less the pieces of that kind on the board, promoted or not
/// and whosever they are.
pub fn assign_rest_to_second(board: &mut Board)
    requires
        old(board)@.wf(),
        within_full_set(old(board)@),
    ensures
        final(board)@.cells == old(board)@.cells,
        final(board)@.first_hand == old(board)@.first_hand,
        final(board)@.second_hand.len() == 7,
        forall|kind: int|
            0 <= kind < 7 ==> #[trigger] final(board)@.second_hand[kind] == spare(
                old(board)@,
                kind,
            ),
        final(board)@.wf(),
{
    let ghost start = board@;
    let piece_counts = spare_pieces(board);
    let mut i: usize = 0;
    while i < HAND_TYPES
        invariant
            0 <= i <= 7,
            start.wf(),
            within_full_set(start),
            board@.cells == start.cells,
            board@.first_hand == start.first_hand,
            board@.second_hand.len() == 7,
            forall|kind: int| 0 <= kind < 7 ==> #[trigger] piece_counts[kind] == spare(start, kind),
            forall|kind: int|
                0 <= kind < i ==> #[trigger] board@.second_hand[kind] == spare(start, kind),
            forall|kind: int| i <= kind < 7 ==> #[trigger] board@.second_hand[kind] >= 0,
        decreases 7 - i,
    {
        proof {
            lemma_count_grows(start.cells, i as int, 0, 81);
            assert(spare(start, i as int) >= 0);
        }
        board.set_second_hand(Piece(i as i8), piece_counts[i] as i8);
        i += 1;
    }
    assert forall|kind: int| 0 <= kind < 7 implies #[trigger] board@.second_hand[kind] >= 0 by {
        assert(spare(start, kind) >= 0);
    }
}

/// Whether none of the seven counts is negative.
fn none_negative(counts: &[i32; 7]) -> (r: bool)
    ensures
        r == forall|kind: int| 0 <= kind < 7 ==> #[trigger] counts[kind] >= 0,
{
    let mut i: usize = 0;
    while i < HAND_TYPES
        invariant
            0 <= i <= 7,
            forall|kind: int| 0 <= kind < i ==> #[trigger] counts[kind] >= 0,
        decreases 7 - i,
    {
        if counts[i] < 0 {
            return false;
        }
        i += 1;
    }
    true
}

/// What the search hands back, as a line of moves in the order in which it
/// holds them.
pub open spec fn line_of(found: Option<Vec<Move>>) -> Option<Seq<Move>> {
    match found {
        Some(line) => Some(line@),
        None => None,
    }
}

/// A line of moves, last move first.
pub open spec fn backwards(line: Option<Seq<Move>>) -> Option<Seq<Move>> {
    match line {
        Some(moves) => Some(moves.reverse()),
        None => None,
    }
}

/// Putting a move in front of a line puts it at the end of the line read
/// backwards.
proof fn lemma_reverse_push(mv: Move, rest: Seq<Move>)
    ensures
        (seq![mv] + rest).reverse() == rest.reverse().push(mv),
        (seq![mv] + rest).len() == rest.len() + 1,
{
    assert((seq![mv] + rest).reverse() =~= rest.reverse().push(mv));
}

/// Searches for a forced mate that the first player has within `max_depth`
/// moves, both players' moves counted, against every defence, and returns the
/// shortest line that it finds, first move first: each move of the first player
/// gives check, the second player answers with the escape that puts the mate
/// off longest, and after the last move the second player is checkmated. It
/// returns `None` if no check forces mate within `max_depth` moves.
///
/// The search goes through every checking move and every escape from check.
/// Before it starts, it gives the second player, on its own copy of the board,
/// the pieces of a full set that are neither on the board nor in the first
/// player's hand, unless the position holds more pieces of some kind than a
/// full set has. The second player never drops a piece, so this has no part in
/// what is returned.
pub fn solve(board: &Board, max_depth: i32) -> (r: Option<Vec<Move>>)
    requires
        board@.wf(),
        one_king(board@.cells),
        !in_check(board@.cells),
        max_depth > 0,
        max_depth % 2 == 1,
    ensures
        line_of(r) == attack(board@.cells, board@.first_hand, max_depth as nat),
        r is Some <==> forced_mate(board@.cells, board@.first_hand, max_depth as nat),
        r is None <==> forall|mv: Move|
            checks(board@.cells, board@.first_hand).contains(mv) ==> #[trigger] defence_to(
                board@.cells,
                board@.first_hand,
                max_depth as nat,
                mv,
            ) is None,
        r matches Some(line) ==> {
            &&& line.len() <= max_depth
            &&& line.len() % 2 == 1
            &&& mating_line(board@.cells, board@.first_hand, line@, true)
            &&& replayable(board@, line@)
        },
{
    proof {
        let cells = board@.cells;
        let hand = board@.first_hand;
        lemma_attack_line(cells, hand, max_depth as nat);
        lemma_attack_finds_forced_mate(cells, hand, max_depth as nat);
        lemma_attack_none(cells, hand, max_depth as nat);
        match attack(cells, hand, max_depth as nat) {
            Some(line) => {
                lemma_mating_line_replayable(board@, line, true);
            },
            None => {},
        }
    }
    let mut work = board.clone();
    let spare_counts = spare_pieces(&work);
    if none_negative(&spare_counts) {
        assert forall|kind: int| 0 <= kind < 7 implies #[trigger] spare(work@, kind) >= 0 by {
            assert(spare_counts[kind] >= 0);
        }
        assign_rest_to_second(&mut work);
    }
    assert(work@.cells == board@.cells && work@.first_hand == board@.first_hand);

    let mut steps: Vec<Move> = Vec::new();
    let res = solve_first(&work, max_depth, &mut steps);
    assert(line_of(res) == backwards(attack(board@.cells, board@.first_hand, max_depth as nat)));
    match res {
        Some(line) => {
            let ghost found = attack(board@.cells, board@.first_hand, max_depth as nat).unwrap();
            let line = reversed(line);
            assert(line@ =~= found);
            Some(line)
        },
        None => None,
    }
}

/// The boards that the moves of `steps` lead through, from `board` itself to
/// the board after the last move: each is a copy of the one before with the
/// next move carried out.
pub fn intermediate_boards(board: &Board, steps: &Vec<Move>) -> (ret: Vec<Board>)
    requires
        replayable(board@, steps@),
    ensures
        ret.len() == steps.len() + 1,
        forall|i: int| 0 <= i <= steps.len() ==> (#[trigger] ret[i])@ == replay(board@, steps@, i),
{
    let ghost start = board@;
    let mut board = board.clone();
    let mut ret: Vec<Board> = Vec::new();
    ret.push(board.clone());
    let mut m: usize = 0;
    while m < steps.len()
        invariant
            0 <= m <= steps.len(),
            replayable(start, steps@),
            board@ == replay(start, steps@, m as int),
            ret.len() == m + 1,
            forall|i: int| 0 <= i <= m ==> (#[trigger] ret[i])@ == replay(start, steps@, i),
        decreases steps.len() - m,
    {
        let mv = steps[m];
        assert(replay(start, steps@, m as int).admits(steps@[m as int]));
        board.apply_move(mv);
        ret.push(board.clone());
        m += 1;
    }
    ret
}

/// The moves of `line` in the opposite order.
fn reversed(line: Vec<Move>) -> (r: Vec<Move>)
    ensures
        r@ == line@.reverse(),
{
    let mut r: Vec<Move> = Vec::new();
    let mut i: usize = line.len();
    while i > 0
        invariant
            0 <= i <= line.len(),
            r@.len() == line.len() - i,
            forall|j: int| 0 <= j < r@.len() ==> r@[j] == line@[line.len() - 1 - j],
        decreases i,
    {
        i -= 1;
        r.push(line[i]);
    }
    assert(r@ =~= line@.reverse());
    r
}

/// The attacker's turn: tries every checking move and keeps the shortest
/// line that forces mate, the first such in case of a tie. The line is
/// returned last move first. `steps` holds the moves made so far; it is the
/// same after the call as before.
fn solve_first(board: &Board, max_depth: i32, steps: &mut Vec<Move>) -> (r: Option<Vec<Move>>)
    requires
        cells_wf(board@.cells),
        board@.first_hand.len() == 7,
        one_king(board@.cells),
        !in_check(board@.cells),
        max_depth > 0,
        max_depth % 2 == 1,
    ensures
        final(steps)@ == old(steps)@,
        line_of(r) == backwards(attack(board@.cells, board@.first_hand, max_depth as nat)),
        r matches Some(line) ==> line.len() <= max_depth,
    decreases max_depth,
{
    let ghost cells = board@.cells;
    let ghost hand = board@.first_hand;
    let ghost depth = max_depth as nat;
    let moves = board.enumerate_check();

    let mut shortest: Option<Vec<Move>> = None;

    let mut m: usize = 0;
    while m < moves.len()
        invariant
            0 <= m <= moves.len(),
            cells == board@.cells,
            hand == board@.first_hand,
            depth == max_depth as nat,
            cells_wf(cells),
            hand.len() == 7,
            one_king(cells),
            !in_check(cells),
            max_depth > 0,
            max_depth % 2 == 1,
            moves@ == checks(cells, hand),
            steps@ == old(steps)@,
            line_of(shortest) == backwards(
                pick_shortest(moves@, replies(cells, hand, depth, moves@), m as nat),
            ),
            shortest matches Some(line) ==> line.len() <= max_depth,
        decreases moves.len() - m,
    {
        let mv = moves[m];
        proof {
            lemma_check_applies(board@, mv);
        }
        let mut next = board.clone();
        next.apply_move(mv);
        steps.push(mv);

        let ghost answer = replies(cells, hand, depth, moves@)[m as int];
        match solve_second(&next, max_depth - 1, steps) {
            None => (),
            Some(mut line) => {
                let update = match &shortest {
                    None => true,
                    Some(line2) => line.len() + 1 < line2.len(),
                };
                proof {
                    lemma_reverse_push(mv, answer.unwrap());
                }
                if update {
                    line.push(mv);
                    shortest = Some(line);
                }
            },
        }

        steps.pop();
        m += 1;
    }

    shortest
}

/// The defender's turn: an empty line if there is no escape from check, for
/// then the second player is checkmated; `None` if there is one and no move is
/// left to search, or if the attacker has no forced mate after one of the
/// escapes; else the longest of the attacker's lines after the escapes, the
/// first such in case of a tie, with its escape at the end. `steps` is the
/// same after the call as before.
fn solve_second(board: &Board, max_depth: i32, steps: &mut Vec<Move>) -> (r: Option<Vec<Move>>)
    requires
        cells_wf(board@.cells),
        board@.first_hand.len() == 7,
        one_king(board@.cells),
        max_depth >= 0,
        max_depth % 2 == 0,
    ensures
        final(steps)@ == old(steps)@,
        line_of(r) == backwards(defend(board@.cells, board@.first_hand, max_depth as nat)),
        r matches Some(line) ==> line.len() <= max_depth,
    decreases max_depth,
{
    let ghost cells = board@.cells;
    let ghost hand = board@.first_hand;
    let ghost depth = max_depth as nat;
    let moves = board.enumerate_check_avoidance();

    if moves.len() == 0 {
        let line: Vec<Move> = Vec::new();
        assert(line@ =~= Seq::<Move>::empty().reverse());
        return Some(line);
    }
    if max_depth == 0 {
        return None;
    }
    let mut longest: Vec<Move> = Vec::new();
    assert(longest@ =~= Seq::<Move>::empty().reverse());

    let mut m: usize = 0;
    while m < moves.len()
        invariant
            0 <= m <= moves.len(),
            cells == board@.cells,
            hand == board@.first_hand,
            depth == max_depth as nat,
            cells_wf(cells),
            hand.len() == 7,
            one_king(cells),
            max_depth > 0,
            max_depth % 2 == 0,
            moves@ == avoidances(cells),
            steps@ == old(steps)@,
            Some(longest@) == backwards(
                pick_longest(moves@, counters(cells, hand, depth, moves@), m as nat),
            ),
            longest.len() <= max_depth,
        decreases moves.len() - m,
    {
        let mv = moves[m];
        proof {
            lemma_avoidance_applies(board@, mv);
        }
        let mut next = board.clone();
        next.apply_move(mv);
        steps.push(mv);

        let ghost answer = counters(cells, hand, depth, moves@)[m as int];
        match solve_first(&next, max_depth - 1, steps) {
            None => {
                steps.pop();
                proof {
                    lemma_delay_fails_on(
                        moves@,
                        counters(cells, hand, depth, moves@),
                        (m + 1) as nat,
                        moves@.len(),
                    );
                }
                return None;
            },
            Some(mut line) => {
                proof {
                    lemma_reverse_push(mv, answer.unwrap());
                }
                if longest.len() < line.len() + 1 {
                    line.push(mv);
                    longest = line;
                }
            },
        }

        steps.pop();
        m += 1;
    }

    Some(longest)
}

/// Once an escape has no answer, none of the later escapes changes that.
proof fn lemma_delay_fails_on(moves: Seq<Move>, answers: Seq<Option<Seq<Move>>>, m: nat, n: nat)
    requires
        m <= n,
        pick_longest(moves, answers, m) is None,
    ensures
        pick_longest(moves, answers, n) is None,
    decreases n,
{
    if m < n {
        lemma_delay_fails_on(moves, answers, m, (n - 1) as nat);
    }
}

} // verus!
