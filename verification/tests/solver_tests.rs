use tsume::board::Board;
use tsume::common::{
    Move, Piece, SidedPiece, EMPTY_CELL, PIECE_BISHOP, PIECE_GOLD, PIECE_KING, PIECE_KNIGHT,
    PIECE_LANCE, PIECE_PAWN, PIECE_PROMOTED_ROOK, PIECE_ROOK, PIECE_SILVER,
};
use tsume::pos::P;
use tsume::solver::{assign_rest_to_second, intermediate_boards, solve, spare_pieces};

#[test]
fn test_problem() {
    {
        let mut board = Board::new();
        board.set_sided_piece(P(0, 4), Piece(PIECE_KING).as_second());
        board.set_sided_piece(P(0, 3), Piece(PIECE_PAWN).as_second());
        board.set_sided_piece(P(0, 5), Piece(PIECE_PAWN).as_second());
        board.set_sided_piece(P(1, 3), Piece(PIECE_KNIGHT).as_second());
        board.set_sided_piece(P(1, 4), Piece(PIECE_KNIGHT).as_second());
        board.set_sided_piece(P(1, 5), Piece(PIECE_KNIGHT).as_second());
        board.set_sided_piece(P(4, 6), Piece(PIECE_KNIGHT).as_first());

        let sol = solve(&board, 1);
        assert!(sol.is_some() && sol.unwrap().len() == 1);
    }
    {
        let mut board = Board::new();
        board.set_sided_piece(P(0, 7), Piece(PIECE_KING).as_second());
        board.set_sided_piece(P(1, 5), Piece(PIECE_GOLD).as_first());
        board.set_sided_piece(P(2, 7), Piece(PIECE_GOLD).as_first());

        let sol = solve(&board, 3);
        assert!(sol.is_some() && sol.unwrap().len() == 3);
    }
    {
        let mut board = Board::new();
        board.set_sided_piece(P(7, 0), Piece(PIECE_KING).as_second());
        board.set_sided_piece(P(0, 1), Piece(PIECE_ROOK).as_first());
        board.set_sided_piece(P(7, 2), Piece(PIECE_GOLD).as_first());

        let sol = solve(&board, 1);
        assert!(sol.is_some() && sol.unwrap().len() == 1);
    }
    {
        let mut board = Board::new();
        board.set_sided_piece(P(7, 0), Piece(PIECE_KING).as_second());
        board.set_sided_piece(P(0, 1), Piece(PIECE_ROOK).as_first());
        board.set_sided_piece(P(7, 2), Piece(PIECE_SILVER).as_first());

        let sol = solve(&board, 5);
        assert!(sol.is_some() && sol.unwrap().len() == 3);
    }
}

fn board_with(pieces: &[(P, SidedPiece)]) -> Board {
    let mut board = Board::new();
    for &(pos, piece) in pieces {
        board.set_sided_piece(pos, piece);
    }
    board
}

fn rook_and(other: i8) -> Board {
    board_with(&[
        (P(7, 0), Piece(PIECE_KING).as_second()),
        (P(0, 1), Piece(PIECE_ROOK).as_first()),
        (P(7, 2), Piece(other).as_first()),
    ])
}

fn two_golds() -> Board {
    board_with(&[
        (P(0, 7), Piece(PIECE_KING).as_second()),
        (P(1, 5), Piece(PIECE_GOLD).as_first()),
        (P(2, 7), Piece(PIECE_GOLD).as_first()),
    ])
}

fn same_cells(a: &Board, b: &Board) -> bool {
    for y in 0..9 {
        for x in 0..9 {
            if a.get_sided_piece(P(y, x)) != b.get_sided_piece(P(y, x)) {
                return false;
            }
        }
    }
    true
}

#[test]
fn mate_in_three_with_rook_and_silver() {
    let expected = vec![
        Move::Promotion(P(0, 1), P(6, 1)),
        Move::NoPromotion(P(7, 0), P(8, 0)),
        Move::NoPromotion(P(6, 1), P(6, 0)),
    ];
    assert_eq!(solve(&rook_and(PIECE_SILVER), 5), Some(expected.clone()));
    assert_eq!(solve(&rook_and(PIECE_SILVER), 3), Some(expected));
    assert_eq!(solve(&rook_and(PIECE_SILVER), 1), None);
}

#[test]
fn mate_in_one_with_rook_and_gold() {
    let expected = vec![Move::Promotion(P(0, 1), P(7, 1))];
    assert_eq!(solve(&rook_and(PIECE_GOLD), 1), Some(expected.clone()));
    assert_eq!(solve(&rook_and(PIECE_GOLD), 3), Some(expected.clone()));
    assert_eq!(solve(&rook_and(PIECE_GOLD), 5), Some(expected));
}

#[test]
fn no_mate_in_one_with_rook_and_knight() {
    // the knight protects no cell next to the king, so the king takes
    // a rook that comes next to it and walks away from one that stays afar
    assert_eq!(solve(&rook_and(PIECE_KNIGHT), 1), None);
}

#[test]
fn mate_in_three_with_two_golds() {
    let expected = vec![
        Move::NoPromotion(P(1, 5), P(1, 6)),
        Move::NoPromotion(P(0, 7), P(0, 8)),
        Move::NoPromotion(P(1, 6), P(1, 7)),
    ];
    assert_eq!(solve(&two_golds(), 1), None);
    assert_eq!(solve(&two_golds(), 3), Some(expected.clone()));
    assert_eq!(solve(&two_golds(), 5), Some(expected));
}

#[test]
fn mate_by_a_drop() {
    let mut board = board_with(&[
        (P(0, 4), Piece(PIECE_KING).as_second()),
        (P(2, 4), Piece(PIECE_PAWN).as_first()),
    ]);
    board.set_first_hand(Piece(PIECE_GOLD), 1);
    assert_eq!(
        solve(&board, 1),
        Some(vec![Move::FromHand(P(1, 4), Piece(PIECE_GOLD).as_first())])
    );
    // without the gold in hand there is nothing to drop
    board.set_first_hand(Piece(PIECE_GOLD), 0);
    assert_eq!(solve(&board, 1), None);
    assert_eq!(solve(&board, 3), None);
}

#[test]
fn no_check_means_no_mate() {
    let board = board_with(&[
        (P(0, 4), Piece(PIECE_KING).as_second()),
        (P(8, 8), Piece(PIECE_GOLD).as_first()),
    ]);
    assert_eq!(board.enumerate_check(), vec![]);
    assert_eq!(solve(&board, 1), None);
    assert_eq!(solve(&board, 3), None);
}

#[test]
fn mate_in_one_is_a_check_that_leaves_no_escape() {
    let mut with_hand = rook_and(PIECE_SILVER);
    with_hand.set_first_hand(Piece(PIECE_GOLD), 1);
    let boards = [
        rook_and(PIECE_SILVER),
        rook_and(PIECE_GOLD),
        rook_and(PIECE_KNIGHT),
        two_golds(),
        with_hand,
    ];
    for board in boards.iter() {
        let mut first_mate = None;
        for mv in board.enumerate_check() {
            let mut after = board.clone();
            after.apply_move(mv);
            if after.is_checkmate() && first_mate.is_none() {
                first_mate = Some(vec![mv]);
            }
        }
        assert_eq!(solve(board, 1), first_mate);
    }
}

#[test]
fn solution_is_odd_and_within_the_depth() {
    let mut with_hand = rook_and(PIECE_SILVER);
    with_hand.set_first_hand(Piece(PIECE_GOLD), 1);
    let boards = [
        rook_and(PIECE_SILVER),
        rook_and(PIECE_GOLD),
        rook_and(PIECE_KNIGHT),
        two_golds(),
        with_hand,
    ];
    for board in boards.iter() {
        for depth in [1, 3] {
            if let Some(line) = solve(board, depth) {
                assert!(line.len() % 2 == 1);
                assert!(line.len() <= depth as usize);
            }
        }
    }
}

#[test]
fn solution_replays_as_checks_and_escapes_up_to_checkmate() {
    for board in [rook_and(PIECE_SILVER), rook_and(PIECE_GOLD), two_golds()].iter() {
        let line = solve(board, 3).unwrap();
        let boards = intermediate_boards(board, &line);
        assert_eq!(boards.len(), line.len() + 1);
        assert!(same_cells(&boards[0], board));
        for i in 0..line.len() {
            let mut next = boards[i].clone();
            if i % 2 == 0 {
                assert!(boards[i].enumerate_check().contains(&line[i]));
            } else {
                assert!(boards[i].enumerate_check_avoidance().contains(&line[i]));
            }
            next.apply_move(line[i]);
            assert!(same_cells(&next, &boards[i + 1]));
            assert_eq!(boards[i + 1].is_check(), i % 2 == 0);
        }
        assert!(boards[line.len()].is_checkmate());
    }
}

#[test]
fn intermediate_boards_of_no_moves_is_the_board_itself() {
    let board = two_golds();
    let boards = intermediate_boards(&board, &vec![]);
    assert_eq!(boards.len(), 1);
    assert!(same_cells(&boards[0], &board));
}

#[test]
fn intermediate_boards_follow_drops_and_hands() {
    let mut board = board_with(&[(P(0, 4), Piece(PIECE_KING).as_second())]);
    board.set_first_hand(Piece(PIECE_GOLD), 2);
    let gold = Piece(PIECE_GOLD).as_first();
    let steps = vec![
        Move::FromHand(P(2, 4), gold),
        Move::NoPromotion(P(0, 4), P(0, 3)),
        Move::FromHand(P(1, 3), gold),
    ];
    let mut boards = intermediate_boards(&board, &steps);
    assert_eq!(boards.len(), 4);
    let held: Vec<i8> = boards.iter_mut().map(|b| b.get_first_hand(Piece(PIECE_GOLD))).collect();
    assert_eq!(held, vec![2, 1, 1, 0]);
    assert_eq!(boards[1].get_sided_piece(P(2, 4)), gold);
    assert_eq!(boards[2].get_sided_piece(P(0, 4)), SidedPiece(EMPTY_CELL));
    assert_eq!(boards[2].get_sided_piece(P(0, 3)), Piece(PIECE_KING).as_second());
    assert_eq!(boards[3].get_sided_piece(P(1, 3)), gold);
    assert_eq!(boards[0].get_sided_piece(P(2, 4)), SidedPiece(EMPTY_CELL));
}

#[test]
fn solve_leaves_the_board_as_it_was() {
    let mut board = rook_and(PIECE_SILVER);
    board.set_second_hand(Piece(PIECE_PAWN), 1);
    let before = board.clone();
    let _ = solve(&board, 3);
    assert!(same_cells(&board, &before));
    assert_eq!(board.get_second_hand(Piece(PIECE_PAWN)), 1);
    assert_eq!(board.get_second_hand(Piece(PIECE_GOLD)), 0);
}

#[test]
fn spare_pieces_of_an_empty_board_are_a_full_set() {
    assert_eq!(spare_pieces(&Board::new()), [18, 4, 4, 4, 4, 2, 2]);
}

#[test]
fn spare_pieces_count_board_and_first_hand() {
    let mut board = board_with(&[
        (P(0, 4), Piece(PIECE_KING).as_second()),
        (P(8, 4), Piece(PIECE_KING).as_first()),
        (P(0, 3), Piece(PIECE_PAWN).as_second()),
        (P(6, 3), Piece(PIECE_PAWN).as_first()),
        (P(2, 3), SidedPiece(8)),
        (P(2, 5), SidedPiece(-9)),
        (P(4, 4), Piece(PIECE_PROMOTED_ROOK).as_first()),
        (P(5, 5), Piece(PIECE_BISHOP).as_second()),
        (P(7, 7), SidedPiece(-12)),
    ]);
    board.set_first_hand(Piece(PIECE_PAWN), 3);
    board.set_first_hand(Piece(PIECE_GOLD), 4);
    board.set_first_hand(Piece(PIECE_ROOK), 1);
    board.set_second_hand(Piece(PIECE_LANCE), 2);
    assert_eq!(spare_pieces(&board), [18 - 3 - 4, 4, 4, 4 - 1, 0, 1, 0]);
}

#[test]
fn spare_pieces_are_negative_beyond_a_full_set() {
    let mut board = board_with(&[
        (P(0, 0), Piece(PIECE_ROOK).as_first()),
        (P(0, 1), Piece(PIECE_ROOK).as_second()),
        (P(0, 2), Piece(PIECE_PROMOTED_ROOK).as_first()),
    ]);
    board.set_first_hand(Piece(PIECE_BISHOP), 5);
    assert_eq!(spare_pieces(&board), [18, 4, 4, 4, 4, -3, -1]);
}

#[test]
fn rest_goes_to_the_second_hand() {
    let mut board = rook_and(PIECE_SILVER);
    board.set_first_hand(Piece(PIECE_PAWN), 2);
    board.set_second_hand(Piece(PIECE_GOLD), 1);
    assign_rest_to_second(&mut board);
    let held: Vec<i8> = (0..7).map(|k| board.get_second_hand(Piece(k))).collect();
    assert_eq!(held, vec![16, 4, 4, 3, 4, 2, 1]);
    assert_eq!(board.get_first_hand(Piece(PIECE_PAWN)), 2);
    assert_eq!(board.get_sided_piece(P(0, 1)), Piece(PIECE_ROOK).as_first());
}

#[test]
fn solving_a_position_beyond_a_full_set_still_searches() {
    let mut board = rook_and(PIECE_GOLD);
    board.set_sided_piece(P(0, 8), Piece(PIECE_ROOK).as_first());
    board.set_sided_piece(P(1, 8), Piece(PIECE_ROOK).as_first());
    assert_eq!(spare_pieces(&board)[6], -1);
    assert_eq!(solve(&board, 1), Some(vec![Move::Promotion(P(0, 1), P(7, 1))]));
}
