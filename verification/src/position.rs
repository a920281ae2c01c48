//! The mathematical model of a board: what the cells and the hands hold, and
//! what a move makes of them.

use crate::common::{Move, SidedPiece, EMPTY_CELL, SECOND_KING};
use crate::pos::P;
use vstd::prelude::*;

verus! {

/// What a board holds, as mathematical sequences.
pub ghost struct Position {
    /// The 81 cells, row by row from the top.
    pub cells: Seq<SidedPiece>,
    /// The first player's hand: how many pieces of each kind it holds.
    pub first_hand: Seq<i8>,
    /// The second player's hand.
    pub second_hand: Seq<i8>,
}

/// Whether the cell lies on the board.
pub open spec fn on_board(p: P) -> bool {
    0 <= p.0 < 9 && 0 <= p.1 < 9
}

/// Where the cell stands among the 81 cells, counted row by row.
pub open spec fn cell_index(p: P) -> int {
    p.0 * 9 + p.1
}

/// The cell that stands at place `i` of the 81 cells.
pub open spec fn cell_of(i: int) -> P {
    P::of(i / 9, i % 9)
}

/// What the cell `p` holds.
pub open spec fn piece_at(cells: Seq<SidedPiece>, p: P) -> SidedPiece {
    cells[cell_index(p)]
}

/// Whether the cells are 81 in number and each holds a piece or is empty.
pub open spec fn cells_wf(cells: Seq<SidedPiece>) -> bool {
    &&& cells.len() == 81
    &&& forall|i: int| 0 <= i < 81 ==> (#[trigger] cells[i]).valid()
}

/// Whether the second player's king stands on the cell `k`.
pub open spec fn king_at(cells: Seq<SidedPiece>, k: P) -> bool {
    on_board(k) && piece_at(cells, k).0 == SECOND_KING
}

/// Whether exactly one king of the second player stands on the board.
pub open spec fn one_king(cells: Seq<SidedPiece>) -> bool {
    exists|k: P| sole_king_at(cells, k)
}

/// Whether the second player's king stands on `k` and nowhere else.
pub open spec fn sole_king_at(cells: Seq<SidedPiece>, k: P) -> bool {
    &&& king_at(cells, k)
    &&& forall|q: P| #[trigger] king_at(cells, q) ==> q == k
}

/// The cell of the second player's king, where there is exactly one.
pub open spec fn king_pos(cells: Seq<SidedPiece>) -> P {
    choose|k: P| sole_king_at(cells, k)
}

/// The cells after `piece` was put on `p`.
pub open spec fn put(cells: Seq<SidedPiece>, p: P, piece: SidedPiece) -> Seq<SidedPiece> {
    cells.update(cell_index(p), piece)
}

/// The cells after the move `mv`: a relocation empties its source and
/// overwrites its destination, a drop fills its cell.
pub open spec fn cells_after(cells: Seq<SidedPiece>, mv: Move) -> Seq<SidedPiece> {
    match mv {
        Move::NoPromotion(src, dst) => put(
            put(cells, dst, piece_at(cells, src)),
            src,
            SidedPiece(EMPTY_CELL),
        ),
        Move::Promotion(src, dst) => put(
            put(cells, dst, piece_at(cells, src).promoted()),
            src,
            SidedPiece(EMPTY_CELL),
        ),
        Move::FromHand(p, piece) => put(cells, p, piece),
    }
}

/// A hand after one piece of kind `k` left it.
pub open spec fn hand_less(hand: Seq<i8>, k: int) -> Seq<i8> {
    hand.update(k, (hand[k] - 1) as i8)
}

/// The first player's hand after the move `mv`: a drop by the first player
/// takes one piece of the dropped kind out of it.
pub open spec fn first_hand_after(hand: Seq<i8>, mv: Move) -> Seq<i8> {
    match mv {
        Move::FromHand(_, piece) => if piece.is_first() {
            hand_less(hand, piece.0 as int)
        } else {
            hand
        },
        _ => hand,
    }
}

/// The second player's hand after the move `mv`.
pub open spec fn second_hand_after(hand: Seq<i8>, mv: Move) -> Seq<i8> {
    match mv {
        Move::FromHand(_, piece) => if piece.is_first() {
            hand
        } else {
            hand_less(hand, piece.to_piece().0 as int)
        },
        _ => hand,
    }
}

impl Position {
    /// Whether the position has 81 cells that each hold a piece or are empty,
    /// and two hands of seven counts, none of them negative.
    pub open spec fn wf(self) -> bool {
        &&& cells_wf(self.cells)
        &&& self.first_hand.len() == 7
        &&& self.second_hand.len() == 7
        &&& forall|k: int| 0 <= k < 7 ==> #[trigger] self.first_hand[k] >= 0
        &&& forall|k: int| 0 <= k < 7 ==> #[trigger] self.second_hand[k] >= 0
    }

    /// What the cell `p` holds.
    pub open spec fn at(self, p: P) -> SidedPiece {
        piece_at(self.cells, p)
    }

    /// The position after the move `mv`.
    pub open spec fn after(self, mv: Move) -> Position {
        Position {
            cells: cells_after(self.cells, mv),
            first_hand: first_hand_after(self.first_hand, mv),
            second_hand: second_hand_after(self.second_hand, mv),
        }
    }

    /// Whether the move can be carried out at all: its cells lie on the
    /// board, the code of a promoting piece leaves room for the promoted
    /// code, and a dropped piece is of a kind that is held in hand, with a
    /// count that can still go down.
    pub open spec fn admits(self, mv: Move) -> bool {
        match mv {
            Move::NoPromotion(src, dst) => on_board(src) && on_board(dst),
            Move::Promotion(src, dst) => on_board(src) && on_board(dst) && -120 <= self.at(src).0
                < 120,
            Move::FromHand(p, piece) => {
                &&& on_board(p)
                &&& piece.to_piece().droppable()
                &&& if piece.is_first() {
                    self.first_hand[piece.0 as int] > i8::MIN
                } else {
                    self.second_hand[piece.to_piece().0 as int] > i8::MIN
                }
            },
        }
    }
}

/// The position after the first `n` of `steps` were carried out one after
/// the other.
pub open spec fn replay(b: Position, steps: Seq<Move>, n: int) -> Position
    decreases n,
{
    if n <= 0 {
        b
    } else {
        replay(b, steps, n - 1).after(steps[n - 1])
    }
}

/// Whether each of `steps` can be carried out on the position that the
/// steps before it lead to.
pub open spec fn replayable(b: Position, steps: Seq<Move>) -> bool {
    forall|i: int| 0 <= i < steps.len() ==> #[trigger] replay(b, steps, i).admits(steps[i])
}

/// Each cell on the board has its own place among the 81, and each place is
/// that of a cell on the board.
pub proof fn lemma_cell_index(p: P)
    requires
        on_board(p),
    ensures
        0 <= cell_index(p) < 81,
        cell_of(cell_index(p)) == p,
{
}

/// The cell at a place among the 81 lies on the board, at that place.
pub proof fn lemma_cell_of(i: int)
    requires
        0 <= i < 81,
    ensures
        on_board(cell_of(i)),
        cell_index(cell_of(i)) == i,
{
}

/// Where exactly one king stands on the board, `king_pos` is its cell.
pub proof fn lemma_king_pos(cells: Seq<SidedPiece>, k: P)
    requires
        one_king(cells),
        king_at(cells, k),
    ensures
        king_pos(cells) == k,
        sole_king_at(cells, k),
{
}

} // verus!
