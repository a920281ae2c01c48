//! Checking moves and escapes from check: which moves of a player put the
//! second player's king in check, and which take it out.

use crate::attack::in_check;
use crate::common::{Move, SidedPiece};
use crate::drops::{
    bishop_drops, drop_checks, held_step_drops, is_drop, lance_drops, lemma_drop_checks,
    lemma_drop_gives_check, rook_drops,
};
use crate::movegen::{friendly, is_move_of, lemma_moves_from, moves_from, reaches};
use crate::pos::P;
use crate::position::{
    cell_index, cell_of, cells_after, cells_wf, first_hand_after, king_at, king_pos,
    lemma_cell_index, lemma_cell_of, lemma_king_pos, on_board, one_king, piece_at, sole_king_at,
    Position,
};
use vstd::prelude::*;
use vstd::seq_lib::lemma_seq_concat_contains_all_elements;

verus! {

/// The test that a move puts the king in check.
pub open spec fn gives_check(cells: Seq<SidedPiece>) -> spec_fn(Move) -> bool {
    |mv: Move| in_check(cells_after(cells, mv))
}

/// The test that a move leaves the king out of check.
pub open spec fn avoids_check(cells: Seq<SidedPiece>) -> spec_fn(Move) -> bool {
    |mv: Move| !in_check(cells_after(cells, mv))
}

/// The moves of the pieces that the player `is_second` has on the first `n`
/// cells, cell by cell.
pub open spec fn side_moves(cells: Seq<SidedPiece>, is_second: bool, n: int) -> Seq<Move>
    decreases n,
{
    if n <= 0 {
        Seq::empty()
    } else {
        side_moves(cells, is_second, n - 1) + (if friendly(cells[n - 1], is_second) {
            moves_from(cells, cell_of(n - 1))
        } else {
            Seq::empty()
        })
    }
}

/// The moves of the first player's pieces on the board that put the king in
/// check.
pub open spec fn board_checks(cells: Seq<SidedPiece>) -> Seq<Move> {
    side_moves(cells, false, 81).filter(gives_check(cells))
}

/// The moves of the second player's pieces on the board after which the
/// king is not in check.
pub open spec fn avoidances(cells: Seq<SidedPiece>) -> Seq<Move> {
    side_moves(cells, true, 81).filter(avoids_check(cells))
}

/// Whether the second player is checkmated: no move of its pieces leaves the
/// king out of check.
pub open spec fn checkmate(cells: Seq<SidedPiece>) -> bool {
    avoidances(cells).len() == 0
}

/// The checking moves of the first player: those of its pieces on the
/// board, then the drops from its hand.
pub open spec fn checks(cells: Seq<SidedPiece>, hand: Seq<i8>) -> Seq<Move> {
    board_checks(cells) + drop_checks(cells, hand, king_pos(cells))
}

/// A move of a first-player piece on a board whose king is not in check
/// leaves the king where it is, the only one: the cells after the move are
/// again 81 cells that hold pieces or are empty, with one king.
pub proof fn lemma_first_move_keeps_king(cells: Seq<SidedPiece>, src: P, mv: Move)
    requires
        cells_wf(cells),
        one_king(cells),
        !in_check(cells),
        on_board(src),
        piece_at(cells, src).is_first(),
        moves_from(cells, src).contains(mv),
    ensures
        one_king(cells_after(cells, mv)),
        king_pos(cells_after(cells, mv)) == king_pos(cells),
        cells_wf(cells_after(cells, mv)),
{
    lemma_moves_from(cells, src, mv);
    let k = king_pos(cells);
    let after = cells_after(cells, mv);
    let dst = mv.target();
    assert(reaches(cells, src, dst));
    assert(dst != k);
    lemma_cell_index(src);
    lemma_cell_index(dst);
    lemma_cell_index(k);
    assert(king_at(after, k));
    assert forall|q: P| #[trigger] king_at(after, q) implies q == k by {
        lemma_cell_index(q);
        assert(king_at(cells, q));
    }
    assert(sole_king_at(after, k));
    lemma_king_pos(after, k);
}

/// A move of a second-player piece leaves exactly one king on the board:
/// where it was, or where the move took it.
pub proof fn lemma_second_move_keeps_king(cells: Seq<SidedPiece>, src: P, mv: Move)
    requires
        cells_wf(cells),
        one_king(cells),
        on_board(src),
        piece_at(cells, src).is_second(),
        moves_from(cells, src).contains(mv),
    ensures
        one_king(cells_after(cells, mv)),
        cells_wf(cells_after(cells, mv)),
{
    lemma_cell_index(src);
    lemma_moves_from(cells, src, mv);
    let k = king_pos(cells);
    let after = cells_after(cells, mv);
    let dst = mv.target();
    assert(reaches(cells, src, dst));
    lemma_cell_index(dst);
    lemma_cell_index(k);
    let k2 = if src == k {
        dst
    } else {
        k
    };
    assert(king_at(after, k2));
    assert forall|q: P| #[trigger] king_at(after, q) implies q == k2 by {
        lemma_cell_index(q);
        if q != dst {
            assert(king_at(cells, q));
        } else {
            assert(mv is NoPromotion);
            assert(king_at(cells, src));
        }
    }
    assert(sole_king_at(after, k2));
}

/// A move listed for the piece on `src` can be carried out.
pub proof fn lemma_listed_move_admitted(b: Position, src: P, mv: Move)
    requires
        on_board(src),
        b.at(src).valid(),
        moves_from(b.cells, src).contains(mv),
    ensures
        b.admits(mv),
{
    lemma_moves_from(b.cells, src, mv);
}

/// The checking moves are the checking moves on the board followed by the
/// four groups of drops.
pub proof fn lemma_checks_joined(
    cells: Seq<SidedPiece>,
    hand: Seq<i8>,
    on_board_part: Seq<Move>,
    all: Seq<Move>,
)
    requires
        on_board_part == board_checks(cells),
        all == on_board_part + held_step_drops(cells, hand, king_pos(cells), 7) + lance_drops(
            cells,
            hand,
            king_pos(cells),
        ) + bishop_drops(cells, hand, king_pos(cells)) + rook_drops(cells, hand, king_pos(cells)),
    ensures
        all == checks(cells, hand),
{
    let k = king_pos(cells);
    let a = held_step_drops(cells, hand, k, 7);
    let b = lance_drops(cells, hand, k);
    let c = bishop_drops(cells, hand, k);
    let d = rook_drops(cells, hand, k);
    assert(on_board_part + a + b + c + d =~= on_board_part + (a + b + c + d));
}

/// What is kept of a sequence by a test is what is in the sequence and
/// passes the test.
pub proof fn lemma_kept<A>(s: Seq<A>, pred: spec_fn(A) -> bool, x: A)
    ensures
        s.filter(pred).contains(x) <==> s.contains(x) && pred(x),
{
    if s.filter(pred).contains(x) {
        s.lemma_filter_contains_rev(pred, x);
        let i = choose|i: int| 0 <= i < s.filter(pred).len() && s.filter(pred)[i] == x;
        s.lemma_filter_pred(pred, i);
    }
    if s.contains(x) && pred(x) {
        let i = choose|i: int| 0 <= i < s.len() && s[i] == x;
        s.lemma_filter_contains(pred, i);
    }
}

/// Whether `mv` is a move of one of the pieces that the player `is_second`
/// has on the board.
pub open spec fn is_side_move(cells: Seq<SidedPiece>, is_second: bool, mv: Move) -> bool {
    exists|src: P|
        on_board(src) && friendly(piece_at(cells, src), is_second) && #[trigger] is_move_of(
            cells,
            src,
            mv,
        )
}

/// The moves listed for the pieces of a player on the first `n` cells are
/// the moves of those pieces as the rules have them.
pub proof fn lemma_side_moves(cells: Seq<SidedPiece>, is_second: bool, n: int, mv: Move)
    requires
        cells_wf(cells),
        0 <= n <= 81,
    ensures
        side_moves(cells, is_second, n).contains(mv) <==> exists|src: P|
            on_board(src) && cell_index(src) < n && friendly(piece_at(cells, src), is_second)
                && #[trigger] is_move_of(cells, src, mv),
    decreases n,
{
    if n > 0 {
        lemma_side_moves(cells, is_second, n - 1, mv);
        let here = cell_of(n - 1);
        lemma_cell_of(n - 1);
        let last = if friendly(cells[n - 1], is_second) {
            moves_from(cells, here)
        } else {
            Seq::empty()
        };
        lemma_seq_concat_contains_all_elements(side_moves(cells, is_second, n - 1), last, mv);
        lemma_moves_from(cells, here, mv);
        if exists|src: P|
            on_board(src) && cell_index(src) < n && friendly(piece_at(cells, src), is_second)
                && #[trigger] is_move_of(cells, src, mv) {
            let src = choose|src: P|
                on_board(src) && cell_index(src) < n && friendly(piece_at(cells, src), is_second)
                    && #[trigger] is_move_of(cells, src, mv);
            lemma_cell_index(src);
            if cell_index(src) == n - 1 {
                assert(src == here);
            }
        }
    }
}

/// The escapes from check are the moves of the second player's pieces after
/// which the king is not in check.
pub proof fn lemma_avoidances(cells: Seq<SidedPiece>, mv: Move)
    requires
        cells_wf(cells),
    ensures
        avoidances(cells).contains(mv) <==> is_side_move(cells, true, mv) && !in_check(
            cells_after(cells, mv),
        ),
{
    lemma_kept(side_moves(cells, true, 81), avoids_check(cells), mv);
    lemma_side_moves(cells, true, 81, mv);
    if is_side_move(cells, true, mv) {
        let src = choose|src: P|
            on_board(src) && friendly(piece_at(cells, src), true) && #[trigger] is_move_of(
                cells,
                src,
                mv,
            );
        lemma_cell_index(src);
    }
}

/// The same of every move at once.
pub proof fn lemma_avoidances_listed(cells: Seq<SidedPiece>)
    requires
        cells_wf(cells),
    ensures
        forall|mv: Move| #[trigger]
            avoidances(cells).contains(mv) <==> is_side_move(cells, true, mv) && !in_check(
                cells_after(cells, mv),
            ),
{
    assert forall|mv: Move| #[trigger]
        avoidances(cells).contains(mv) <==> is_side_move(cells, true, mv) && !in_check(
            cells_after(cells, mv),
        ) by {
        lemma_avoidances(cells, mv);
    }
}

/// The checking moves on the board are the moves of the first player's
/// pieces after which the king is in check.
pub proof fn lemma_board_checks(cells: Seq<SidedPiece>, mv: Move)
    requires
        cells_wf(cells),
    ensures
        board_checks(cells).contains(mv) <==> is_side_move(cells, false, mv) && in_check(
            cells_after(cells, mv),
        ),
{
    lemma_kept(side_moves(cells, false, 81), gives_check(cells), mv);
    lemma_side_moves(cells, false, 81, mv);
    if is_side_move(cells, false, mv) {
        let src = choose|src: P|
            on_board(src) && friendly(piece_at(cells, src), false) && #[trigger] is_move_of(
                cells,
                src,
                mv,
            );
        lemma_cell_index(src);
    }
}

/// On a board whose king is not in check, the checking moves are exactly
/// the moves of the first player, be it a move of one of its pieces on the
/// board or a drop from its hand onto an empty cell, after which the king is
/// in check.
pub proof fn lemma_checks(cells: Seq<SidedPiece>, hand: Seq<i8>, mv: Move)
    requires
        cells_wf(cells),
        one_king(cells),
        !in_check(cells),
        hand.len() == 7,
    ensures
        checks(cells, hand).contains(mv) <==> (is_side_move(cells, false, mv) || is_drop(
            cells,
            hand,
            mv,
        )) && in_check(cells_after(cells, mv)),
{
    lemma_seq_concat_contains_all_elements(
        board_checks(cells),
        drop_checks(cells, hand, king_pos(cells)),
        mv,
    );
    lemma_board_checks(cells, mv);
    lemma_drop_checks(cells, hand, mv);
}

/// The same of every move at once.
pub proof fn lemma_checks_listed(cells: Seq<SidedPiece>, hand: Seq<i8>)
    requires
        cells_wf(cells),
        one_king(cells),
        !in_check(cells),
        hand.len() == 7,
    ensures
        forall|mv: Move| #[trigger]
            checks(cells, hand).contains(mv) <==> (is_side_move(cells, false, mv) || is_drop(
                cells,
                hand,
                mv,
            )) && in_check(cells_after(cells, mv)),
{
    assert forall|mv: Move| #[trigger]
        checks(cells, hand).contains(mv) <==> (is_side_move(cells, false, mv) || is_drop(
            cells,
            hand,
            mv,
        )) && in_check(cells_after(cells, mv)) by {
        lemma_checks(cells, hand, mv);
    }
}

/// A checking move can be carried out, and leaves a board with 81 proper
/// cells and one king, which is in check.
pub proof fn lemma_check_applies(b: Position, mv: Move)
    requires
        cells_wf(b.cells),
        b.first_hand.len() == 7,
        one_king(b.cells),
        !in_check(b.cells),
        checks(b.cells, b.first_hand).contains(mv),
    ensures
        b.admits(mv),
        cells_wf(cells_after(b.cells, mv)),
        one_king(cells_after(b.cells, mv)),
        in_check(cells_after(b.cells, mv)),
        first_hand_after(b.first_hand, mv).len() == 7,
{
    lemma_checks(b.cells, b.first_hand, mv);
    if is_side_move(b.cells, false, mv) {
        let src = choose|src: P|
            on_board(src) && friendly(piece_at(b.cells, src), false) && #[trigger] is_move_of(
                b.cells,
                src,
                mv,
            );
        lemma_cell_index(src);
        lemma_moves_from(b.cells, src, mv);
        lemma_first_move_keeps_king(b.cells, src, mv);
        lemma_listed_move_admitted(b, src, mv);
    } else {
        lemma_drop_gives_check(b.cells, b.first_hand, mv);
    }
}

/// An escape from check can be carried out, and leaves a board with 81
/// proper cells and one king, which is not in check.
pub proof fn lemma_avoidance_applies(b: Position, mv: Move)
    requires
        cells_wf(b.cells),
        one_king(b.cells),
        avoidances(b.cells).contains(mv),
    ensures
        b.admits(mv),
        cells_wf(cells_after(b.cells, mv)),
        one_king(cells_after(b.cells, mv)),
        !in_check(cells_after(b.cells, mv)),
        first_hand_after(b.first_hand, mv) == b.first_hand,
{
    lemma_avoidances(b.cells, mv);
    let src = choose|src: P|
        on_board(src) && friendly(piece_at(b.cells, src), true) && #[trigger] is_move_of(
            b.cells,
            src,
            mv,
        );
    lemma_cell_index(src);
    lemma_moves_from(b.cells, src, mv);
    lemma_second_move_keeps_king(b.cells, src, mv);
    lemma_listed_move_admitted(b, src, mv);
}

/// The second player is checkmated exactly when no escape from check is
/// listed, which is when every move of its pieces on the board leaves the
/// king in check.
pub proof fn lemma_checkmate_is_no_escape(cells: Seq<SidedPiece>)
    requires
        cells_wf(cells),
    ensures
        checkmate(cells) <==> avoidances(cells) == Seq::<Move>::empty(),
        checkmate(cells) <==> forall|mv: Move|
            #[trigger] is_side_move(cells, true, mv) ==> in_check(cells_after(cells, mv)),
{
    let escapes = avoidances(cells);
    if checkmate(cells) {
        assert(escapes =~= Seq::<Move>::empty());
        assert forall|mv: Move| #[trigger] is_side_move(cells, true, mv) implies in_check(
            cells_after(cells, mv),
        ) by {
            lemma_avoidances(cells, mv);
        }
    } else {
        let mv = escapes[0];
        assert(escapes.contains(mv));
        lemma_avoidances(cells, mv);
    }
}

} // verus!
