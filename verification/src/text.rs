//! The board as text: one line for each row, one group of characters for
//! each cell.

use crate::board::Board;
use crate::common::{name_of, SidedPiece, BOARD_SIZE};
use crate::pos::P;
use crate::position::cells_wf;
use vstd::prelude::*;

verus! {

/// The characters that stand for a cell: two dots between blanks for an
/// empty cell; the name of the piece between blanks for a piece of the first
/// player; a `v`, the name of the piece and a blank for a piece of the second
/// player.
pub open spec fn cell_text(sided: SidedPiece) -> Seq<char> {
    if sided.is_empty() {
        seq![' ', '.', '.', ' ']
    } else if sided.is_first() {
        seq![' ', name_of(sided.to_piece().0 as int), ' ']
    } else {
        seq!['v', name_of(sided.to_piece().0 as int), ' ']
    }
}

/// The characters that stand for the first `n` cells of row `y`.
pub open spec fn row_text(cells: Seq<SidedPiece>, y: int, n: int) -> Seq<char>
    decreases n,
{
    if n <= 0 {
        Seq::empty()
    } else {
        row_text(cells, y, n - 1) + cell_text(cells[y * 9 + n - 1])
    }
}

/// The characters that stand for the first `n` rows, each row ended by a
/// line feed.
pub open spec fn board_text(cells: Seq<SidedPiece>, n: int) -> Seq<char>
    decreases n,
{
    if n <= 0 {
        Seq::empty()
    } else {
        board_text(cells, n - 1) + row_text(cells, n - 1, 9) + seq!['\n']
    }
}

impl Board {
    /// The board as text, row by row from the top, each row ended by a line
    /// feed.
    pub fn render(&self) -> (text: Vec<char>)
        requires
            cells_wf(self@.cells),
        ensures
            text@ == board_text(self@.cells, 9),
    {
        let ghost cells = self@.cells;
        let mut text: Vec<char> = Vec::new();
        let mut y: i32 = 0;
        while y < BOARD_SIZE
            invariant
                0 <= y <= 9,
                cells == self@.cells,
                cells_wf(cells),
                text@ == board_text(cells, y as int),
            decreases 9 - y,
        {
            let ghost rows = text@;
            let mut x: i32 = 0;
            while x < BOARD_SIZE
                invariant
                    0 <= y < 9,
                    0 <= x <= 9,
                    cells == self@.cells,
                    cells_wf(cells),
                    text@ == rows + row_text(cells, y as int, x as int),
                decreases 9 - x,
            {
                let ghost before = text@;
                let piece = self.get_sided_piece(P(y, x));
                assert(piece == cells[y * 9 + x]);
                assert(piece.valid());
                if piece.is_empty() {
                    text.push(' ');
                    text.push('.');
                    text.push('.');
                    text.push(' ');
                } else if piece.is_first() {
                    text.push(' ');
                    text.push(piece.to_piece().get_name());
                    text.push(' ');
                } else {
                    text.push('v');
                    text.push(piece.to_piece().get_name());
                    text.push(' ');
                }
                assert(text@ =~= before + cell_text(piece));
                assert(text@ =~= rows + row_text(cells, y as int, x + 1));
                x += 1;
            }
            text.push('\n');
            assert(text@ =~= board_text(cells, y + 1));
            y += 1;
        }
        text
    }
}

} // verus!
