use tsume::board::Board;
use tsume::common::{Piece, SidedPiece, PIECE_GOLD, PIECE_KING, PIECE_PAWN, PIECE_ROOK};
use tsume::pos::P;

fn text_of(board: &Board) -> String {
    board.render().into_iter().collect()
}

#[test]
fn empty_board_is_nine_rows_of_dots() {
    let row = " .. ".repeat(9) + "\n";
    assert_eq!(text_of(&Board::new()), row.repeat(9));
}

#[test]
fn pieces_are_written_with_their_names_and_sides() {
    let mut board = Board::new();
    board.set_sided_piece(P(0, 4), Piece(PIECE_KING).as_second());
    board.set_sided_piece(P(0, 0), Piece(PIECE_ROOK).as_first());
    board.set_sided_piece(P(1, 8), Piece(PIECE_GOLD).as_first());
    board.set_sided_piece(P(8, 8), SidedPiece(-9));
    board.set_sided_piece(P(8, 0), Piece(PIECE_PAWN).as_first());
    let empty_row = " .. ".repeat(9) + "\n";
    let expected = String::new()
        + " 飛 "
        + &" .. ".repeat(3)
        + "v玉 "
        + &" .. ".repeat(4)
        + "\n"
        + &" .. ".repeat(8)
        + " 金 "
        + "\n"
        + &empty_row.repeat(6)
        + " 歩 "
        + &" .. ".repeat(7)
        + "vと "
        + "\n";
    assert_eq!(text_of(&board), expected);
}
