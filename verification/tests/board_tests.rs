use tsume::board::Board;
use tsume::common::{
    Move, Piece, SidedPiece, EMPTY_CELL, PIECE_BISHOP, PIECE_GOLD, PIECE_KING, PIECE_KNIGHT,
    PIECE_LANCE, PIECE_PAWN, PIECE_PROMOTED_BISHOP, PIECE_PROMOTED_ROOK, PIECE_ROOK,
    PIECE_SILVER, SECOND_KING,
};
use tsume::pos::{D, P};

#[test]
fn test_enumerate_check() {
    let mut board = Board::new();
    board.set_sided_piece(P(0, 4), Piece(PIECE_KING).as_second());
    board.set_sided_piece(P(2, 5), Piece(PIECE_GOLD).as_first());

    let checks = board.enumerate_check();
    assert_eq!(checks.len(), 2);
    assert!(checks.contains(&Move::NoPromotion(P(2, 5), P(1, 4))));
    assert!(checks.contains(&Move::NoPromotion(P(2, 5), P(1, 5))));
}

#[test]
fn test_enumerate_check_ranging() {
    {
        // lance and promotion
        let mut board = Board::new();
        board.set_sided_piece(P(1, 1), Piece(PIECE_KING).as_second());
        board.set_sided_piece(P(8, 0), Piece(PIECE_LANCE).as_first());

        let checks = board.enumerate_check();
        assert_eq!(checks.len(), 2);
        assert!(checks.contains(&Move::Promotion(P(8, 0), P(2, 0))));
        assert!(checks.contains(&Move::Promotion(P(8, 0), P(1, 0))));
    }
    {
        // bishop
        let mut board = Board::new();
        board.set_sided_piece(P(2, 2), Piece(PIECE_KING).as_second());
        board.set_sided_piece(P(8, 2), Piece(PIECE_BISHOP).as_first());

        let checks = board.enumerate_check();
        assert_eq!(checks.len(), 1);
        assert!(checks.contains(&Move::NoPromotion(P(8, 2), P(5, 5))));
    }
}

#[test]
fn new_board_is_empty() {
    let mut board = Board::new();
    for y in 0..9 {
        for x in 0..9 {
            assert_eq!(board.get_sided_piece(P(y, x)), SidedPiece(EMPTY_CELL));
        }
    }
    for k in 0..7 {
        assert_eq!(board.get_first_hand(Piece(k)), 0);
        assert_eq!(board.get_second_hand(Piece(k)), 0);
    }
}

fn first(id: i8) -> SidedPiece {
    Piece(id).as_first()
}

fn second(id: i8) -> SidedPiece {
    Piece(id).as_second()
}

fn board_with(pieces: &[(P, SidedPiece)]) -> Board {
    let mut board = Board::new();
    for &(pos, piece) in pieces {
        board.set_sided_piece(pos, piece);
    }
    board
}

fn plain(from: (i32, i32), to: (i32, i32)) -> Move {
    Move::NoPromotion(P(from.0, from.1), P(to.0, to.1))
}

fn promoting(from: (i32, i32), to: (i32, i32)) -> Move {
    Move::Promotion(P(from.0, from.1), P(to.0, to.1))
}

fn target(mv: Move) -> P {
    match mv {
        Move::NoPromotion(_, dst) => dst,
        Move::Promotion(_, dst) => dst,
        Move::FromHand(dst, _) => dst,
    }
}

#[test]
fn inside_board_is_rows_and_columns_zero_to_eight() {
    let board = Board::new();
    assert!(board.is_inside_board(P(0, 0)));
    assert!(board.is_inside_board(P(8, 8)));
    assert!(board.is_inside_board(P(0, 8)));
    assert!(board.is_inside_board(P(8, 0)));
    assert!(!board.is_inside_board(P(-1, 0)));
    assert!(!board.is_inside_board(P(0, -1)));
    assert!(!board.is_inside_board(P(9, 0)));
    assert!(!board.is_inside_board(P(0, 9)));
    assert!(!board.is_inside_board(P(9, 9)));
}

#[test]
fn set_then_get_returns_the_piece_and_leaves_the_rest() {
    let mut board = Board::new();
    board.set_sided_piece(P(3, 7), first(PIECE_LANCE));
    assert_eq!(board.get_sided_piece(P(3, 7)), SidedPiece(1));
    assert_eq!(board.get_sided_piece(P(7, 3)), SidedPiece(EMPTY_CELL));
    assert_eq!(board.get_sided_piece(P(3, 6)), SidedPiece(EMPTY_CELL));
    assert_eq!(board.get_sided_piece(P(3, 8)), SidedPiece(EMPTY_CELL));
    assert_eq!(board.get_sided_piece(P(2, 7)), SidedPiece(EMPTY_CELL));
    assert_eq!(board.get_sided_piece(P(4, 7)), SidedPiece(EMPTY_CELL));
    board.set_sided_piece(P(3, 7), second(PIECE_GOLD));
    assert_eq!(board.get_sided_piece(P(3, 7)), SidedPiece(-5));
}

#[test]
fn hands_are_kept_per_side_and_kind() {
    let mut board = Board::new();
    board.set_first_hand(Piece(PIECE_PAWN), 3);
    board.set_first_hand(Piece(PIECE_ROOK), 1);
    board.set_second_hand(Piece(PIECE_PAWN), 5);
    assert_eq!(board.get_first_hand(Piece(PIECE_PAWN)), 3);
    assert_eq!(board.get_first_hand(Piece(PIECE_ROOK)), 1);
    assert_eq!(board.get_first_hand(Piece(PIECE_GOLD)), 0);
    assert_eq!(board.get_second_hand(Piece(PIECE_PAWN)), 5);
    assert_eq!(board.get_second_hand(Piece(PIECE_ROOK)), 0);
}

#[test]
fn clone_shares_nothing_with_the_board_it_came_from() {
    let mut board = board_with(&[(P(0, 4), second(PIECE_KING))]);
    board.set_first_hand(Piece(PIECE_GOLD), 2);
    let mut copy = board.clone();
    copy.set_sided_piece(P(0, 4), SidedPiece(EMPTY_CELL));
    copy.set_first_hand(Piece(PIECE_GOLD), 0);
    assert_eq!(board.get_sided_piece(P(0, 4)), SidedPiece(SECOND_KING));
    assert_eq!(board.get_first_hand(Piece(PIECE_GOLD)), 2);
    assert_eq!(copy.get_sided_piece(P(0, 4)), SidedPiece(EMPTY_CELL));
    assert_eq!(copy.get_first_hand(Piece(PIECE_GOLD)), 0);
}

#[test]
fn second_king_is_located() {
    for &(y, x) in &[(0, 0), (0, 4), (4, 4), (8, 8), (7, 0)] {
        let board = board_with(&[(P(y, x), second(PIECE_KING)), (P(5, 5), first(PIECE_KING))]);
        assert_eq!(board.locate_second_king(), P(y, x));
    }
}

#[test]
fn promotion_zone_is_the_far_three_rows() {
    for y in 0..9 {
        assert_eq!(Board::is_promotion_zone(P(y, 4), false), y <= 2, "row {}", y);
        assert_eq!(Board::is_promotion_zone(P(y, 4), true), y >= 6, "row {}", y);
    }
}

#[test]
fn pieces_without_a_row_ahead_cannot_move_on() {
    for y in 0..9 {
        for id in [PIECE_PAWN, PIECE_LANCE] {
            assert_eq!(Board::has_further_move(P(y, 0), Piece(id), false), y != 0);
            assert_eq!(Board::has_further_move(P(y, 0), Piece(id), true), y != 8);
        }
        assert_eq!(Board::has_further_move(P(y, 0), Piece(PIECE_KNIGHT), false), y > 1);
        assert_eq!(Board::has_further_move(P(y, 0), Piece(PIECE_KNIGHT), true), y < 7);
        for id in [3i8, 4, 5, 6, 7, 8, 9, 10, 11, 13, 14] {
            assert!(Board::has_further_move(P(y, 0), Piece(id), false));
            assert!(Board::has_further_move(P(y, 0), Piece(id), true));
        }
    }
}

#[test]
fn relocation_moves_the_piece_and_empties_the_source() {
    let mut board = board_with(&[(P(4, 4), first(PIECE_SILVER)), (P(3, 4), second(PIECE_PAWN))]);
    board.apply_move(plain((4, 4), (3, 4)));
    assert_eq!(board.get_sided_piece(P(3, 4)), first(PIECE_SILVER));
    assert_eq!(board.get_sided_piece(P(4, 4)), SidedPiece(EMPTY_CELL));
    // the captured pawn goes to no hand
    assert_eq!(board.get_first_hand(Piece(PIECE_PAWN)), 0);
    assert_eq!(board.get_second_hand(Piece(PIECE_PAWN)), 0);
}

#[test]
fn promoting_relocation_promotes_for_either_side() {
    let mut board = board_with(&[(P(3, 4), first(PIECE_SILVER)), (P(5, 1), second(PIECE_ROOK))]);
    board.apply_move(promoting((3, 4), (2, 4)));
    assert_eq!(board.get_sided_piece(P(2, 4)), SidedPiece(11));
    assert_eq!(board.get_sided_piece(P(3, 4)), SidedPiece(EMPTY_CELL));
    board.apply_move(promoting((5, 1), (8, 1)));
    assert_eq!(board.get_sided_piece(P(8, 1)), Piece(PIECE_PROMOTED_ROOK).as_second());
    assert_eq!(board.get_sided_piece(P(8, 1)), SidedPiece(-15));
    assert_eq!(board.get_sided_piece(P(5, 1)), SidedPiece(EMPTY_CELL));
}

#[test]
fn drop_takes_one_piece_from_the_owners_hand() {
    let mut board = Board::new();
    board.set_first_hand(Piece(PIECE_GOLD), 2);
    board.set_second_hand(Piece(PIECE_GOLD), 3);
    board.set_second_hand(Piece(PIECE_PAWN), 1);
    board.apply_move(Move::FromHand(P(1, 4), first(PIECE_GOLD)));
    assert_eq!(board.get_sided_piece(P(1, 4)), first(PIECE_GOLD));
    assert_eq!(board.get_first_hand(Piece(PIECE_GOLD)), 1);
    assert_eq!(board.get_second_hand(Piece(PIECE_GOLD)), 3);
    board.apply_move(Move::FromHand(P(7, 7), second(PIECE_PAWN)));
    assert_eq!(board.get_sided_piece(P(7, 7)), second(PIECE_PAWN));
    assert_eq!(board.get_second_hand(Piece(PIECE_PAWN)), 0);
    assert_eq!(board.get_second_hand(Piece(PIECE_GOLD)), 3);
    assert_eq!(board.get_first_hand(Piece(PIECE_GOLD)), 1);
}

#[test]
fn empty_cell_has_no_moves() {
    let board = board_with(&[(P(4, 4), first(PIECE_GOLD))]);
    assert_eq!(board.enumerate_moves(P(0, 0)), vec![]);
    assert_eq!(board.enumerate_moves(P(4, 5)), vec![]);
}

#[test]
fn pawn_moves_one_step_ahead() {
    let board = board_with(&[(P(4, 4), first(PIECE_PAWN)), (P(4, 6), second(PIECE_PAWN))]);
    assert_eq!(board.enumerate_moves(P(4, 4)), vec![plain((4, 4), (3, 4))]);
    assert_eq!(board.enumerate_moves(P(4, 6)), vec![plain((4, 6), (5, 6))]);
}

#[test]
fn pawn_may_promote_on_entering_the_zone() {
    let board = board_with(&[(P(3, 4), first(PIECE_PAWN)), (P(5, 6), second(PIECE_PAWN))]);
    assert_eq!(
        board.enumerate_moves(P(3, 4)),
        vec![promoting((3, 4), (2, 4)), plain((3, 4), (2, 4))]
    );
    assert_eq!(
        board.enumerate_moves(P(5, 6)),
        vec![promoting((5, 6), (6, 6)), plain((5, 6), (6, 6))]
    );
}

#[test]
fn pawn_must_promote_on_the_last_row() {
    let board = board_with(&[(P(1, 4), first(PIECE_PAWN)), (P(7, 6), second(PIECE_PAWN))]);
    assert_eq!(board.enumerate_moves(P(1, 4)), vec![promoting((1, 4), (0, 4))]);
    assert_eq!(board.enumerate_moves(P(7, 6)), vec![promoting((7, 6), (8, 6))]);
}

#[test]
fn knight_must_promote_on_the_last_two_rows() {
    let board = board_with(&[(P(2, 4), first(PIECE_KNIGHT)), (P(4, 1), first(PIECE_KNIGHT))]);
    assert_eq!(
        board.enumerate_moves(P(2, 4)),
        vec![promoting((2, 4), (0, 3)), promoting((2, 4), (0, 5))]
    );
    assert_eq!(
        board.enumerate_moves(P(4, 1)),
        vec![
            promoting((4, 1), (2, 0)),
            plain((4, 1), (2, 0)),
            promoting((4, 1), (2, 2)),
            plain((4, 1), (2, 2))
        ]
    );
    let board = board_with(&[(P(5, 4), second(PIECE_KNIGHT))]);
    assert_eq!(
        board.enumerate_moves(P(5, 4)),
        vec![promoting((5, 4), (7, 3)), promoting((5, 4), (7, 5))]
    );
}

#[test]
fn gold_in_the_corner_stays_on_the_board() {
    let board = board_with(&[(P(0, 0), first(PIECE_GOLD))]);
    assert_eq!(board.enumerate_moves(P(0, 0)), vec![plain((0, 0), (0, 1)), plain((0, 0), (1, 0))]);
}

#[test]
fn second_players_steps_are_mirrored() {
    let board = board_with(&[(P(0, 0), second(PIECE_KING))]);
    assert_eq!(
        board.enumerate_moves(P(0, 0)),
        vec![plain((0, 0), (1, 0)), plain((0, 0), (1, 1)), plain((0, 0), (0, 1))]
    );
    let board = board_with(&[(P(4, 4), second(PIECE_GOLD))]);
    assert_eq!(
        board.enumerate_moves(P(4, 4)),
        vec![
            plain((4, 4), (5, 3)),
            plain((4, 4), (5, 4)),
            plain((4, 4), (5, 5)),
            plain((4, 4), (4, 3)),
            plain((4, 4), (4, 5)),
            plain((4, 4), (3, 4))
        ]
    );
}

#[test]
fn steps_do_not_land_on_own_pieces_but_capture() {
    let board = board_with(&[
        (P(4, 4), first(PIECE_GOLD)),
        (P(3, 4), first(PIECE_PAWN)),
        (P(3, 3), second(PIECE_PAWN)),
    ]);
    assert_eq!(
        board.enumerate_moves(P(4, 4)),
        vec![
            plain((4, 4), (3, 3)),
            plain((4, 4), (3, 5)),
            plain((4, 4), (4, 3)),
            plain((4, 4), (4, 5)),
            plain((4, 4), (5, 4))
        ]
    );
}

#[test]
fn lance_slides_ahead_and_promotes_at_the_end() {
    let board = board_with(&[(P(8, 0), first(PIECE_LANCE))]);
    assert_eq!(
        board.enumerate_moves(P(8, 0)),
        vec![
            plain((8, 0), (7, 0)),
            plain((8, 0), (6, 0)),
            plain((8, 0), (5, 0)),
            plain((8, 0), (4, 0)),
            plain((8, 0), (3, 0)),
            promoting((8, 0), (2, 0)),
            plain((8, 0), (2, 0)),
            promoting((8, 0), (1, 0)),
            plain((8, 0), (1, 0)),
            promoting((8, 0), (0, 0))
        ]
    );
    let board = board_with(&[(P(6, 3), second(PIECE_LANCE))]);
    assert_eq!(
        board.enumerate_moves(P(6, 3)),
        vec![
            promoting((6, 3), (7, 3)),
            plain((6, 3), (7, 3)),
            promoting((6, 3), (8, 3))
        ]
    );
}

#[test]
fn rook_stops_before_own_and_on_enemy_pieces() {
    let board = board_with(&[
        (P(4, 4), first(PIECE_ROOK)),
        (P(4, 6), first(PIECE_PAWN)),
        (P(2, 4), second(PIECE_PAWN)),
    ]);
    assert_eq!(
        board.enumerate_moves(P(4, 4)),
        vec![
            plain((4, 4), (3, 4)),
            promoting((4, 4), (2, 4)),
            plain((4, 4), (2, 4)),
            plain((4, 4), (4, 3)),
            plain((4, 4), (4, 2)),
            plain((4, 4), (4, 1)),
            plain((4, 4), (4, 0)),
            plain((4, 4), (4, 5)),
            plain((4, 4), (5, 4)),
            plain((4, 4), (6, 4)),
            plain((4, 4), (7, 4)),
            plain((4, 4), (8, 4))
        ]
    );
}

#[test]
fn bishop_slides_along_the_diagonals() {
    let board = board_with(&[(P(7, 1), first(PIECE_BISHOP))]);
    assert_eq!(
        board.enumerate_moves(P(7, 1)),
        vec![
            plain((7, 1), (6, 0)),
            plain((7, 1), (6, 2)),
            plain((7, 1), (5, 3)),
            plain((7, 1), (4, 4)),
            plain((7, 1), (3, 5)),
            promoting((7, 1), (2, 6)),
            plain((7, 1), (2, 6)),
            promoting((7, 1), (1, 7)),
            plain((7, 1), (1, 7)),
            promoting((7, 1), (0, 8)),
            plain((7, 1), (0, 8)),
            plain((7, 1), (8, 0)),
            plain((7, 1), (8, 2))
        ]
    );
}

#[test]
fn promoted_sliders_step_and_slide_without_promoting_again() {
    let board = board_with(&[(P(1, 1), first(PIECE_PROMOTED_BISHOP))]);
    assert_eq!(
        board.enumerate_moves(P(1, 1)),
        vec![
            plain((1, 1), (0, 1)),
            plain((1, 1), (1, 0)),
            plain((1, 1), (1, 2)),
            plain((1, 1), (2, 1)),
            plain((1, 1), (0, 0)),
            plain((1, 1), (0, 2)),
            plain((1, 1), (2, 0)),
            plain((1, 1), (2, 2)),
            plain((1, 1), (3, 3)),
            plain((1, 1), (4, 4)),
            plain((1, 1), (5, 5)),
            plain((1, 1), (6, 6)),
            plain((1, 1), (7, 7)),
            plain((1, 1), (8, 8))
        ]
    );
    let board = board_with(&[(P(0, 0), first(PIECE_PROMOTED_ROOK)), (P(0, 2), first(PIECE_PAWN))]);
    let moves = board.enumerate_moves(P(0, 0));
    assert_eq!(moves.len(), 1 + 1 + 8);
    assert_eq!(moves[0], plain((0, 0), (1, 1)));
    assert_eq!(moves[1], plain((0, 0), (0, 1)));
    assert_eq!(moves[2], plain((0, 0), (1, 0)));
    assert_eq!(moves[9], plain((0, 0), (8, 0)));
}

#[test]
fn promoted_lance_moves_like_a_gold() {
    let board = board_with(&[(P(4, 4), SidedPiece(9))]);
    assert_eq!(
        board.enumerate_moves(P(4, 4)),
        vec![
            plain((4, 4), (3, 3)),
            plain((4, 4), (3, 4)),
            plain((4, 4), (3, 5)),
            plain((4, 4), (4, 3)),
            plain((4, 4), (4, 5)),
            plain((4, 4), (5, 4))
        ]
    );
}

#[test]
fn every_listed_move_goes_where_it_says() {
    let pieces = [
        (P(4, 4), first(PIECE_ROOK)),
        (P(2, 2), first(PIECE_KNIGHT)),
        (P(3, 6), first(PIECE_SILVER)),
        (P(6, 6), second(PIECE_BISHOP)),
        (P(5, 1), second(PIECE_PAWN)),
        (P(0, 4), second(PIECE_KING)),
        (P(1, 4), second(PIECE_GOLD)),
    ];
    let board = board_with(&pieces);
    let mut seen = 0;
    for &(src, piece) in &pieces {
        for mv in board.enumerate_moves(src) {
            let mut after = board.clone();
            after.apply_move(mv);
            match mv {
                Move::NoPromotion(from, dst) => {
                    assert_eq!(from, src);
                    assert_ne!(dst, src);
                    assert_eq!(after.get_sided_piece(dst), piece);
                }
                Move::Promotion(from, dst) => {
                    assert_eq!(from, src);
                    assert_ne!(dst, src);
                    assert_eq!(after.get_sided_piece(dst), piece.promote());
                    assert_eq!(
                        after.get_sided_piece(dst).to_piece(),
                        piece.to_piece().promote()
                    );
                    assert_eq!(after.get_sided_piece(dst).is_second(), piece.is_second());
                }
                Move::FromHand(_, _) => panic!("a piece on the board does not drop"),
            }
            assert!(after.get_sided_piece(src).is_empty());
            seen += 1;
        }
    }
    assert!(seen > 30);
}

#[test]
fn check_by_single_steps() {
    let king = (P(4, 4), second(PIECE_KING));
    let checking = [
        (P(5, 4), PIECE_PAWN),
        (P(6, 3), PIECE_KNIGHT),
        (P(6, 5), PIECE_KNIGHT),
        (P(5, 3), PIECE_SILVER),
        (P(5, 4), PIECE_SILVER),
        (P(3, 5), PIECE_SILVER),
        (P(5, 5), PIECE_GOLD),
        (P(4, 3), PIECE_GOLD),
        (P(3, 4), PIECE_GOLD),
        (P(3, 3), PIECE_KING),
        (P(4, 5), PIECE_PROMOTED_BISHOP),
        (P(3, 3), PIECE_PROMOTED_ROOK),
        (P(4, 3), 8),
        (P(5, 5), 11),
    ];
    for &(pos, id) in &checking {
        let board = board_with(&[king, (pos, first(id))]);
        assert!(board.is_check(), "piece {} on {:?}", id, pos);
    }
    let quiet = [
        (P(3, 4), PIECE_PAWN),
        (P(4, 3), PIECE_PAWN),
        (P(2, 3), PIECE_KNIGHT),
        (P(6, 4), PIECE_KNIGHT),
        (P(4, 3), PIECE_SILVER),
        (P(3, 4), PIECE_SILVER),
        (P(3, 3), PIECE_GOLD),
        (P(3, 5), PIECE_GOLD),
        (P(3, 5), 9),
        (P(6, 6), PIECE_GOLD),
    ];
    for &(pos, id) in &quiet {
        let board = board_with(&[king, (pos, first(id))]);
        assert!(!board.is_check(), "piece {} on {:?}", id, pos);
    }
}

#[test]
fn check_along_lines_needs_a_clear_path() {
    let king = (P(4, 4), second(PIECE_KING));
    let sliders = [
        (P(8, 4), PIECE_LANCE),
        (P(8, 4), PIECE_ROOK),
        (P(0, 4), PIECE_ROOK),
        (P(4, 0), PIECE_ROOK),
        (P(4, 8), PIECE_PROMOTED_ROOK),
        (P(0, 0), PIECE_BISHOP),
        (P(8, 8), PIECE_BISHOP),
        (P(1, 7), PIECE_PROMOTED_BISHOP),
        (P(7, 1), PIECE_BISHOP),
    ];
    for &(pos, id) in &sliders {
        let board = board_with(&[king, (pos, first(id))]);
        assert!(board.is_check(), "piece {} on {:?}", id, pos);
        let mid = P(4 + (pos.0 - 4).signum(), 4 + (pos.1 - 4).signum());
        let blocked = board_with(&[king, (pos, first(id)), (mid, first(PIECE_KNIGHT))]);
        assert!(!blocked.is_check(), "piece {} on {:?}, blocked on {:?}", id, pos, mid);
        let blocked = board_with(&[king, (pos, first(id)), (mid, second(PIECE_GOLD))]);
        assert!(!blocked.is_check(), "piece {} on {:?}, blocked on {:?}", id, pos, mid);
    }
    // a lance attacks only ahead, and the promoted lance does not slide
    assert!(!board_with(&[king, (P(0, 4), first(PIECE_LANCE))]).is_check());
    assert!(!board_with(&[king, (P(4, 0), first(PIECE_LANCE))]).is_check());
    assert!(!board_with(&[king, (P(8, 4), SidedPiece(9))]).is_check());
    // lines of the other kind
    assert!(!board_with(&[king, (P(0, 0), first(PIECE_ROOK))]).is_check());
    assert!(!board_with(&[king, (P(0, 4), first(PIECE_BISHOP))]).is_check());
}

#[test]
fn second_players_pieces_give_no_check() {
    let king = (P(4, 4), second(PIECE_KING));
    assert!(!board_with(&[king]).is_check());
    assert!(!board_with(&[king, (P(5, 4), second(PIECE_GOLD))]).is_check());
    assert!(!board_with(&[king, (P(8, 4), second(PIECE_ROOK))]).is_check());
    assert!(!board_with(&[king, (P(3, 4), second(PIECE_PAWN))]).is_check());
}

#[test]
fn check_is_a_move_onto_the_king() {
    let king = P(4, 4);
    for id in 0..16i8 {
        if id == 12 || id == 15 {
            continue;
        }
        for y in 0..9 {
            for x in 0..9 {
                if P(y, x) == king {
                    continue;
                }
                let board = board_with(&[
                    (king, second(PIECE_KING)),
                    (P(y, x), first(id)),
                    (P(4, 6), second(PIECE_PAWN)),
                    (P(6, 4), first(PIECE_PAWN)),
                ]);
                let mut threat = false;
                for sy in 0..9 {
                    for sx in 0..9 {
                        if board.get_sided_piece(P(sy, sx)).is_first() {
                            for mv in board.enumerate_moves(P(sy, sx)) {
                                threat = threat || target(mv) == king;
                            }
                        }
                    }
                }
                assert_eq!(board.is_check(), threat, "piece {} on {:?}", id, P(y, x));
            }
        }
    }
}

#[test]
fn checks_are_the_first_players_moves_that_give_check() {
    let mut board = board_with(&[
        (P(0, 4), second(PIECE_KING)),
        (P(0, 3), second(PIECE_GOLD)),
        (P(3, 4), first(PIECE_SILVER)),
        (P(4, 1), first(PIECE_BISHOP)),
        (P(5, 5), first(PIECE_ROOK)),
        (P(2, 6), first(PIECE_KNIGHT)),
        (P(6, 4), first(PIECE_LANCE)),
    ]);
    board.set_first_hand(Piece(PIECE_PAWN), 1);
    board.set_first_hand(Piece(PIECE_GOLD), 1);
    board.set_first_hand(Piece(PIECE_BISHOP), 1);
    assert!(!board.is_check());
    let checks = board.enumerate_check();
    for &mv in &checks {
        let mut after = board.clone();
        after.apply_move(mv);
        assert!(after.is_check(), "{:?} is listed and gives no check", mv);
    }
    let mut candidates = 0;
    for y in 0..9 {
        for x in 0..9 {
            let piece = board.get_sided_piece(P(y, x));
            if piece.is_first() {
                for mv in board.enumerate_moves(P(y, x)) {
                    let mut after = board.clone();
                    after.apply_move(mv);
                    assert_eq!(after.is_check(), checks.contains(&mv), "{:?}", mv);
                    candidates += 1;
                }
            } else if piece.is_empty() {
                for id in [PIECE_PAWN, PIECE_GOLD, PIECE_BISHOP] {
                    let mv = Move::FromHand(P(y, x), first(id));
                    let mut after = board.clone();
                    after.apply_move(mv);
                    assert_eq!(after.is_check(), checks.contains(&mv), "{:?}", mv);
                    candidates += 1;
                }
                for id in [PIECE_LANCE, PIECE_KNIGHT, PIECE_SILVER, PIECE_ROOK] {
                    assert!(!checks.contains(&Move::FromHand(P(y, x), first(id))));
                }
            }
        }
    }
    assert!(candidates > 200);
    assert!(checks.len() > 5);
}

#[test]
fn drops_that_give_check_by_a_single_step() {
    let mut board = board_with(&[(P(0, 4), second(PIECE_KING))]);
    board.set_first_hand(Piece(PIECE_GOLD), 1);
    let gold = first(PIECE_GOLD);
    assert_eq!(
        board.enumerate_check(),
        vec![
            Move::FromHand(P(1, 3), gold),
            Move::FromHand(P(1, 4), gold),
            Move::FromHand(P(1, 5), gold),
            Move::FromHand(P(0, 3), gold),
            Move::FromHand(P(0, 5), gold)
        ]
    );
    board.set_first_hand(Piece(PIECE_PAWN), 2);
    board.set_first_hand(Piece(PIECE_KNIGHT), 1);
    board.set_first_hand(Piece(PIECE_GOLD), 0);
    assert_eq!(
        board.enumerate_check(),
        vec![
            Move::FromHand(P(1, 4), first(PIECE_PAWN)),
            Move::FromHand(P(2, 3), first(PIECE_KNIGHT)),
            Move::FromHand(P(2, 5), first(PIECE_KNIGHT))
        ]
    );
}

#[test]
fn drops_skip_occupied_cells() {
    let mut board = board_with(&[
        (P(0, 4), second(PIECE_KING)),
        (P(1, 4), second(PIECE_PAWN)),
        (P(1, 5), first(PIECE_KNIGHT)),
    ]);
    board.set_first_hand(Piece(PIECE_SILVER), 1);
    let silver = first(PIECE_SILVER);
    assert_eq!(board.enumerate_check(), vec![Move::FromHand(P(1, 3), silver)]);
}

#[test]
fn drops_that_give_check_along_lines() {
    let mut board = board_with(&[(P(0, 4), second(PIECE_KING)), (P(0, 6), second(PIECE_GOLD))]);
    board.set_first_hand(Piece(PIECE_ROOK), 1);
    let rook = first(PIECE_ROOK);
    let mut expected = vec![];
    for x in [3, 2, 1, 0] {
        expected.push(Move::FromHand(P(0, x), rook));
    }
    expected.push(Move::FromHand(P(0, 5), rook));
    for y in 1..9 {
        expected.push(Move::FromHand(P(y, 4), rook));
    }
    assert_eq!(board.enumerate_check(), expected);

    let mut board = board_with(&[(P(0, 4), second(PIECE_KING)), (P(3, 4), first(PIECE_PAWN))]);
    board.set_first_hand(Piece(PIECE_LANCE), 1);
    let lance = first(PIECE_LANCE);
    assert_eq!(
        board.enumerate_check(),
        vec![Move::FromHand(P(1, 4), lance), Move::FromHand(P(2, 4), lance)]
    );

    let mut board = board_with(&[(P(0, 4), second(PIECE_KING))]);
    board.set_first_hand(Piece(PIECE_BISHOP), 1);
    let bishop = first(PIECE_BISHOP);
    assert_eq!(
        board.enumerate_check(),
        vec![
            Move::FromHand(P(1, 3), bishop),
            Move::FromHand(P(2, 2), bishop),
            Move::FromHand(P(3, 1), bishop),
            Move::FromHand(P(4, 0), bishop),
            Move::FromHand(P(1, 5), bishop),
            Move::FromHand(P(2, 6), bishop),
            Move::FromHand(P(3, 7), bishop),
            Move::FromHand(P(4, 8), bishop)
        ]
    );
}

#[test]
fn moves_on_the_board_come_before_drops() {
    let mut board = board_with(&[(P(0, 4), second(PIECE_KING)), (P(2, 5), first(PIECE_GOLD))]);
    board.set_first_hand(Piece(PIECE_PAWN), 1);
    assert_eq!(
        board.enumerate_check(),
        vec![
            plain((2, 5), (1, 4)),
            plain((2, 5), (1, 5)),
            Move::FromHand(P(1, 4), first(PIECE_PAWN))
        ]
    );
}

#[test]
fn hand_ranging_walks_until_the_first_piece() {
    let board = board_with(&[(P(4, 7), first(PIECE_PAWN))]);
    let rook = first(PIECE_ROOK);
    let mut dest = vec![Move::FromHand(P(0, 0), rook)];
    board.enumerate_check_from_hand_ranging(P(4, 4), D(0, 1), rook, &mut dest);
    assert_eq!(
        dest,
        vec![
            Move::FromHand(P(0, 0), rook),
            Move::FromHand(P(4, 5), rook),
            Move::FromHand(P(4, 6), rook)
        ]
    );
    let mut dest = vec![];
    board.enumerate_check_from_hand_ranging(P(4, 4), D(-1, -1), rook, &mut dest);
    assert_eq!(dest.len(), 4);
    assert_eq!(dest[3], Move::FromHand(P(0, 0), rook));
    let mut dest = vec![];
    board.enumerate_check_from_hand_ranging(P(8, 8), D(1, 0), rook, &mut dest);
    assert_eq!(dest, vec![]);
}

#[test]
fn escapes_are_the_second_players_moves_out_of_check() {
    // a gold in front of the king, not protected: the king takes it or steps aside
    let board = board_with(&[(P(0, 4), second(PIECE_KING)), (P(1, 4), first(PIECE_GOLD))]);
    assert!(board.is_check());
    assert_eq!(board.enumerate_check_avoidance(), vec![plain((0, 4), (1, 4))]);
    assert!(!board.is_checkmate());
    // the same gold, protected by a pawn: no escape
    let board = board_with(&[
        (P(0, 4), second(PIECE_KING)),
        (P(1, 4), first(PIECE_GOLD)),
        (P(2, 4), first(PIECE_PAWN)),
    ]);
    assert_eq!(board.enumerate_check_avoidance(), vec![]);
    assert!(board.is_checkmate());
    // a defender that can take the gold
    let board = board_with(&[
        (P(0, 4), second(PIECE_KING)),
        (P(1, 4), first(PIECE_GOLD)),
        (P(2, 4), first(PIECE_PAWN)),
        (P(0, 3), second(PIECE_GOLD)),
    ]);
    assert_eq!(board.enumerate_check_avoidance(), vec![plain((0, 3), (1, 4))]);
    assert!(!board.is_checkmate());
}

#[test]
fn a_line_check_can_be_blocked_by_a_move() {
    let board = board_with(&[
        (P(0, 0), second(PIECE_KING)),
        (P(0, 8), first(PIECE_ROOK)),
        (P(1, 0), second(PIECE_PAWN)),
        (P(1, 1), second(PIECE_PAWN)),
        (P(1, 3), second(PIECE_SILVER)),
    ]);
    assert!(board.is_check());
    assert_eq!(
        board.enumerate_check_avoidance(),
        vec![plain((1, 3), (0, 2)), plain((1, 3), (0, 4))]
    );
}

#[test]
fn checkmate_is_the_absence_of_escapes() {
    let boards = [
        board_with(&[(P(0, 4), second(PIECE_KING))]),
        board_with(&[(P(0, 4), second(PIECE_KING)), (P(1, 4), first(PIECE_GOLD))]),
        board_with(&[
            (P(0, 4), second(PIECE_KING)),
            (P(1, 4), first(PIECE_GOLD)),
            (P(2, 4), first(PIECE_PAWN)),
        ]),
        board_with(&[
            (P(8, 8), second(PIECE_KING)),
            (P(7, 7), first(PIECE_PROMOTED_ROOK)),
            (P(5, 5), first(PIECE_BISHOP)),
        ]),
        board_with(&[
            (P(0, 0), second(PIECE_KING)),
            (P(0, 8), first(PIECE_ROOK)),
            (P(1, 8), first(PIECE_ROOK)),
        ]),
    ];
    let expected = [false, false, true, true, true];
    for (board, &mate) in boards.iter().zip(expected.iter()) {
        assert_eq!(board.enumerate_check_avoidance().is_empty(), board.is_checkmate());
        assert_eq!(board.is_checkmate(), mate);
    }
}
