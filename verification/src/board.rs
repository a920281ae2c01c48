//! The board: 81 cells and the pieces each player holds in hand.

use crate::attack::{
    any_step_hit, in_check, lemma_scan_is_attack, ray_hit, ray_hit_at, scan_finds, step_hit,
};
use crate::checks::{
    avoidances, avoids_check, checkmate, checks, gives_check, is_side_move, lemma_avoidances_listed,
    lemma_checkmate_is_no_escape, lemma_checks_joined, lemma_checks_listed,
    lemma_first_move_keeps_king, lemma_listed_move_admitted, lemma_second_move_keeps_king,
    side_moves,
};
use crate::common::{
    lemma_step_table, step_count, step_offset, Move, Piece, SidedPiece, BOARD_SIZE, EMPTY_CELL,
    HAND_TYPES, PIECE_BISHOP, PIECE_KNIGHT, PIECE_LANCE, PIECE_MOVES_COUNT, PIECE_PAWN, PIECE_ROOK,
    PIECE_TYPES, SECOND_KING,
};
use crate::drops::{
    bishop_drops, drop_checks, held_step_drops, is_drop, lance_drops, lemma_walk_fits, ray_drops,
    rook_drops, step_drops, walk_fits,
};
use crate::movegen::{
    arrivals, can_move_on, clear_between, is_move_of, lemma_moves_listed, moves_from,
    promotion_zone, slide_moves, sliding_moves, step_moves,
};
use crate::pos::{D, P};
use crate::position::{
    cell_of, cells_after, cells_wf, king_at, king_pos, lemma_king_pos, on_board, one_king, piece_at,
    put, Position,
};
use vstd::prelude::*;

verus! {

/// The state of a game: the pieces on the 81 cells, row by row from the top,
/// and the number of pieces of each kind that each player holds in hand.
pub struct Board {
    pieces: [SidedPiece; 81],
    hand_first: [i8; 7],
    hand_second: [i8; 7],
}

/// A board is viewed as the position that it holds.
impl View for Board {
    type V = Position;

    /// The cells and the two hands as sequences.
    closed spec fn view(&self) -> Position {
        Position {
            cells: self.pieces@,
            first_hand: self.hand_first@,
            second_hand: self.hand_second@,
        }
    }
}

impl Clone for Board {
    /// A full copy, which shares nothing with `self`.
    fn clone(&self) -> (r: Board)
        ensures
            r@ == self@,
    {
        Board { pieces: self.pieces, hand_first: self.hand_first, hand_second: self.hand_second }
    }
}

impl Board {
    /// A board with 81 empty cells and empty hands.
    pub fn new() -> (r: Board)
        ensures
            r@.cells == Seq::new(81, |i: int| SidedPiece(EMPTY_CELL)),
            r@.first_hand == Seq::new(7, |i: int| 0i8),
            r@.second_hand == Seq::new(7, |i: int| 0i8),
            r@.wf(),
    {
        let b = Board {
            pieces: [SidedPiece(EMPTY_CELL); 81],
            hand_first: [0; 7],
            hand_second: [0; 7],
        };
        assert(b@.cells =~= Seq::new(81, |i: int| SidedPiece(EMPTY_CELL)));
        assert(b@.first_hand =~= Seq::new(7, |i: int| 0i8));
        assert(b@.second_hand =~= Seq::new(7, |i: int| 0i8));
        b
    }

    /// Every board has 81 cells and two hands of seven counts.
    pub proof fn lemma_shape(&self)
        ensures
            self@.cells.len() == 81,
            self@.first_hand.len() == 7,
            self@.second_hand.len() == 7,
    {
    }

    /// Whether the cell lies on the board.
    pub fn is_inside_board(&self, pos: P) -> (r: bool)
        ensures
            r == on_board(pos),
    {
        0 <= pos.0 && pos.0 < BOARD_SIZE && 0 <= pos.1 && pos.1 < BOARD_SIZE
    }

    /// What the cell holds.
    pub fn get_sided_piece(&self, pos: P) -> (r: SidedPiece)
        requires
            on_board(pos),
        ensures
            r == self@.at(pos),
    {
        self.pieces[(pos.0 * 9 + pos.1) as usize]
    }

    /// Puts `piece` on the cell, whatever the cell held.
    pub fn set_sided_piece(&mut self, pos: P, piece: SidedPiece)
        requires
            on_board(pos),
        ensures
            final(self)@ == (Position { cells: put(old(self)@.cells, pos, piece), ..old(self)@ }),
    {
        self.pieces[(pos.0 * 9 + pos.1) as usize] = piece;
    }

    /// Sets how many pieces of the kind `piece` the first player holds.
    pub fn set_first_hand(&mut self, piece: Piece, n: i8)
        requires
            piece.droppable(),
        ensures
            final(self)@ == (Position {
                first_hand: old(self)@.first_hand.update(piece.0 as int, n),
                ..old(self)@
            }),
    {
        self.hand_first[piece.0 as usize] = n;
    }

    /// How many pieces of the kind `piece` the first player holds.
    pub fn get_first_hand(&mut self, piece: Piece) -> (r: i8)
        requires
            piece.droppable(),
        ensures
            r == old(self)@.first_hand[piece.0 as int],
            final(self)@ == old(self)@,
    {
        self.hand_first[piece.0 as usize]
    }

    /// Sets how many pieces of the kind `piece` the second player holds.
    pub fn set_second_hand(&mut self, piece: Piece, n: i8)
        requires
            piece.droppable(),
        ensures
            final(self)@ == (Position {
                second_hand: old(self)@.second_hand.update(piece.0 as int, n),
                ..old(self)@
            }),
    {
        self.hand_second[piece.0 as usize] = n;
    }

    /// How many pieces of the kind `piece` the second player holds.
    pub fn get_second_hand(&mut self, piece: Piece) -> (r: i8)
        requires
            piece.droppable(),
        ensures
            r == old(self)@.second_hand[piece.0 as int],
            final(self)@ == old(self)@,
    {
        self.hand_second[piece.0 as usize]
    }

    /// The cell of the second player's king.
    pub fn locate_second_king(&self) -> (r: P)
        requires
            one_king(self@.cells),
        ensures
            r == king_pos(self@.cells),
            king_at(self@.cells, r),
    {
        let mut y: i32 = 0;
        while y < BOARD_SIZE
            invariant
                0 <= y <= 9,
                one_king(self@.cells),
                forall|q: P| on_board(q) && q.0 < y ==> !king_at(self@.cells, q),
            decreases 9 - y,
        {
            let mut x: i32 = 0;
            while x < BOARD_SIZE
                invariant
                    0 <= y < 9,
                    0 <= x <= 9,
                    one_king(self@.cells),
                    forall|q: P| on_board(q) && q.0 < y ==> !king_at(self@.cells, q),
                    forall|q: P| on_board(q) && q.0 == y && q.1 < x ==> !king_at(self@.cells, q),
                decreases 9 - x,
            {
                if self.get_sided_piece(P(y, x)).0 == SECOND_KING {
                    proof {
                        lemma_king_pos(self@.cells, P(y, x));
                    }
                    return P(y, x);
                }
                x += 1;
            }
            y += 1;
        }
        // Not reached: the king stands on one of the cells.
        proof {
            let k = king_pos(self@.cells);
            assert(king_at(self@.cells, k));
            assert(false);
        }
        P(0, 0)
    }

    /// Whether the second player's king is in check, that is, whether some
    /// piece of the first player could move onto its cell. It is decided from
    /// the king's side: for every piece identity the cells from which a single
    /// step of that piece leads to the king are looked at, and along each line
    /// the first piece met is tested for being one that slides along it.
    pub fn is_check(&self) -> (r: bool)
        requires
            one_king(self@.cells),
        ensures
            r == in_check(self@.cells),
    {
        let king_pos = self.locate_second_king();
        let ghost cells = self@.cells;
        proof {
            lemma_scan_is_attack(cells, king_pos);
        }

        let mut i: usize = 0;
        while i < PIECE_TYPES * 2
            invariant
                0 <= i <= 16,
                on_board(king_pos),
                cells == self@.cells,
                scan_finds(cells, king_pos) == in_check(cells),
                forall|id: int, j: int|
                    0 <= id < i && 0 <= j < step_count(id) ==> !#[trigger] step_hit(
                        cells,
                        king_pos,
                        id,
                        j,
                    ),
            decreases 16 - i,
        {
            let piece = Piece(i as i8);
            let mut j: usize = 0;
            while j < PIECE_MOVES_COUNT && step_offset(piece, j) != D(0, 0)
                invariant
                    0 <= i < 16,
                    0 <= j <= 8,
                    j <= step_count(i as int),
                    piece == Piece(i as i8),
                    on_board(king_pos),
                    cells == self@.cells,
                    scan_finds(cells, king_pos) == in_check(cells),
                    forall|jj: int|
                        0 <= jj < j ==> !#[trigger] step_hit(cells, king_pos, i as int, jj),
                decreases 8 - j,
            {
                proof {
                    lemma_step_table(i as int, j as int);
                }
                let pos = king_pos + step_offset(piece, j).flip();
                if self.is_inside_board(pos) {
                    if self.get_sided_piece(pos) == SidedPiece(i as i8) {
                        assert(step_hit(cells, king_pos, i as int, j as int));
                        return true;
                    }
                }
                j += 1;
            }
            proof {
                lemma_step_table(i as int, j as int);
            }
            i += 1;
        }
        assert(!any_step_hit(cells, king_pos));
        let lance = Piece(PIECE_LANCE);
        let bishop = Piece(PIECE_BISHOP);
        let rook = Piece(PIECE_ROOK);
        if self.find_check_by_ranging_moves(king_pos, D(1, 0), lance, lance)
            || self.find_check_by_ranging_moves(king_pos, D(-1, -1), bishop, bishop.promote())
            || self.find_check_by_ranging_moves(king_pos, D(-1, 1), bishop, bishop.promote())
            || self.find_check_by_ranging_moves(king_pos, D(1, -1), bishop, bishop.promote())
            || self.find_check_by_ranging_moves(king_pos, D(1, 1), bishop, bishop.promote())
            || self.find_check_by_ranging_moves(king_pos, D(-1, 0), rook, rook.promote())
            || self.find_check_by_ranging_moves(king_pos, D(0, -1), rook, rook.promote())
            || self.find_check_by_ranging_moves(king_pos, D(0, 1), rook, rook.promote())
            || self.find_check_by_ranging_moves(king_pos, D(1, 0), rook, rook.promote()) {
            return true;
        }
        false
    }

    /// Whether the first piece met from `pos` along `dir` is the first
    /// player's `target` or `target2`.
    fn find_check_by_ranging_moves(&self, pos: P, dir: D, target: Piece, target2: Piece) -> (r:
        bool)
        requires
            on_board(pos),
            -1 <= dir.0 <= 1,
            -1 <= dir.1 <= 1,
            target.valid(),
            target2.valid(),
        ensures
            r == ray_hit(self@.cells, pos, dir, target.as_first(), target2.as_first()),
    {
        let ghost cells = self@.cells;
        let first = target.as_first();
        let second = target2.as_first();
        let mut i: i32 = 1;
        while i < BOARD_SIZE
            invariant
                1 <= i <= 9,
                on_board(pos),
                -1 <= dir.0 <= 1,
                -1 <= dir.1 <= 1,
                first == target.as_first(),
                second == target2.as_first(),
                first.is_first(),
                second.is_first(),
                cells == self@.cells,
                clear_between(cells, pos, dir, i as int),
            decreases 9 - i,
        {
            assert(-8 <= dir.0 * i <= 8 && -8 <= dir.1 * i <= 8) by (nonlinear_arith)
                requires
                    -1 <= dir.0 <= 1,
                    -1 <= dir.1 <= 1,
                    1 <= i <= 8,
            ;
            let pos2 = pos + dir * i;
            assert(pos2 == pos.along(dir, i as int));
            if !self.is_inside_board(pos2) {
                assert forall|n: int| !#[trigger] ray_hit_at(cells, pos, dir, first, second, n) by {
                    if 1 <= n < i {
                        assert(piece_at(cells, pos.along(dir, n)).is_empty());
                    }
                }
                return false;
            }
            let piece = self.get_sided_piece(pos2);
            if piece == first || piece == second {
                assert(ray_hit_at(cells, pos, dir, first, second, i as int));
                return true;
            }
            if !piece.is_empty() {
                assert forall|n: int| !#[trigger] ray_hit_at(cells, pos, dir, first, second, n) by {
                    if 1 <= n < i {
                        assert(piece_at(cells, pos.along(dir, n)).is_empty());
                    }
                }
                return false;
            }
            i += 1;
        }
        assert forall|n: int| !#[trigger] ray_hit_at(cells, pos, dir, first, second, n) by {
            if 1 <= n < 9 {
                assert(piece_at(cells, pos.along(dir, n)).is_empty());
            }
        }
        false
    }

    /// Carries out the move: a relocation copies what the source holds onto
    /// the destination, promoted if the move says so, and empties the source;
    /// a drop takes one piece out of its owner's hand and puts it on the cell.
    /// What stood on the destination is overwritten and goes to no hand.
    pub fn apply_move(&mut self, mv: Move)
        requires
            old(self)@.admits(mv),
        ensures
            final(self)@ == old(self)@.after(mv),
    {
        match mv {
            Move::NoPromotion(src, dest) => {
                let piece = self.get_sided_piece(src);
                self.set_sided_piece(dest, piece);
                self.set_sided_piece(src, SidedPiece(EMPTY_CELL));
            },
            Move::Promotion(src, dest) => {
                let piece = self.get_sided_piece(src).promote();
                self.set_sided_piece(dest, piece);
                self.set_sided_piece(src, SidedPiece(EMPTY_CELL));
            },
            Move::FromHand(pos, piece) => {
                if piece.is_first() {
                    self.hand_first[piece.0 as usize] -= 1;
                } else {
                    self.hand_second[piece.to_piece().0 as usize] -= 1;
                }
                self.set_sided_piece(pos, piece);
            },
        }
    }

    /// Whether the row of `pos` is one of the three farthest from the
    /// player: rows 0 to 2 for the first player, rows 6 to 8 for the second.
    pub fn is_promotion_zone(pos: P, is_second: bool) -> (r: bool)
        ensures
            r == promotion_zone(pos, is_second),
    {
        if is_second {
            pos.0 >= 6
        } else {
            pos.0 <= 2
        }
    }

    /// Whether an unpromoted `piece` standing on `pos` could ever move
    /// again: a pawn or a lance cannot from the last row, a knight cannot from
    /// the last two.
    pub fn has_further_move(pos: P, piece: Piece, is_second: bool) -> (r: bool)
        ensures
            r == can_move_on(pos, piece, is_second),
    {
        if piece.0 == PIECE_PAWN || piece.0 == PIECE_LANCE {
            if (!is_second && pos.0 == 0) || (is_second && pos.0 == 8) {
                return false;
            }
        } else if piece.0 == PIECE_KNIGHT {
            if (!is_second && pos.0 <= 1) || (is_second && pos.0 >= 7) {
                return false;
            }
        }
        true
    }

    /// The moves of the piece on `pos`, in a fixed order: for each single
    /// step of the piece that stays on the board and does not land on a piece
    /// of the same player, the promoting move if the piece may promote, then
    /// the plain move unless the piece could never move again from there;
    /// after those the sliding moves, direction by direction and nearest
    /// first. An empty cell has no moves.
    pub fn enumerate_moves(&self, pos: P) -> (ret: Vec<Move>)
        requires
            on_board(pos),
            self@.at(pos).valid(),
        ensures
            ret@ == moves_from(self@.cells, pos),
            forall|mv: Move| #[trigger] ret@.contains(mv) <==> is_move_of(self@.cells, pos, mv),
    {
        let mut ret: Vec<Move> = Vec::new();
        let sided = self.get_sided_piece(pos);
        if sided.is_empty() {
            proof {
                lemma_moves_listed(self@.cells, pos);
            }
            return ret;
        }
        let is_second = sided.is_second();
        let piece = sided.to_piece();
        let ghost cells = self@.cells;

        let mut j: usize = 0;
        while j < PIECE_MOVES_COUNT && step_offset(piece, j) != D(0, 0)
            invariant
                0 <= j <= 8,
                j <= step_count(piece.0 as int),
                piece.valid(),
                on_board(pos),
                cells == self@.cells,
                ret@ == step_moves(cells, pos, piece, is_second, j as int),
            decreases 8 - j,
        {
            proof {
                lemma_step_table(piece.0 as int, j as int);
            }
            let pos2 = pos + step_offset(piece, j).flip_if(is_second);
            if self.is_inside_board(pos2) {
                let piece2 = self.get_sided_piece(pos2);
                if !((!is_second && piece2.is_first()) || (is_second && piece2.is_second())) {
                    if piece.has_promotion() && (Board::is_promotion_zone(pos, is_second)
                        || Board::is_promotion_zone(pos2, is_second)) {
                        ret.push(Move::Promotion(pos, pos2));
                    }
                    if Board::has_further_move(pos2, piece, is_second) {
                        ret.push(Move::NoPromotion(pos, pos2));
                    }
                }
            }
            j += 1;
        }
        proof {
            lemma_step_table(piece.0 as int, j as int);
        }
        let ghost steps = ret@;

        if piece.0 == PIECE_LANCE {
            let ahead = D(-1, 0).flip_if(is_second);
            self.enumerate_ranging_moves(pos, ahead, is_second, piece, &mut ret);
        }
        if piece.capture().0 == PIECE_BISHOP {
            self.enumerate_ranging_moves(pos, D(-1, -1), is_second, piece, &mut ret);
            self.enumerate_ranging_moves(pos, D(-1, 1), is_second, piece, &mut ret);
            self.enumerate_ranging_moves(pos, D(1, -1), is_second, piece, &mut ret);
            self.enumerate_ranging_moves(pos, D(1, 1), is_second, piece, &mut ret);
        }
        if piece.capture().0 == PIECE_ROOK {
            self.enumerate_ranging_moves(pos, D(-1, 0), is_second, piece, &mut ret);
            self.enumerate_ranging_moves(pos, D(0, -1), is_second, piece, &mut ret);
            self.enumerate_ranging_moves(pos, D(0, 1), is_second, piece, &mut ret);
            self.enumerate_ranging_moves(pos, D(1, 0), is_second, piece, &mut ret);
        }
        assert(ret@ =~= steps + sliding_moves(cells, pos, piece, is_second));
        assert(ret@ == moves_from(cells, pos));
        proof {
            lemma_moves_listed(cells, pos);
        }
        ret
    }

    /// Appends to `dest` the moves of `piece` on `pos` that slide along
    /// `dir`, nearest first.
    fn enumerate_ranging_moves(
        &self,
        pos: P,
        dir: D,
        is_second: bool,
        piece: Piece,
        dest: &mut Vec<Move>,
    )
        requires
            on_board(pos),
            -1 <= dir.0 <= 1,
            -1 <= dir.1 <= 1,
        ensures
            final(dest)@ == old(dest)@ + slide_moves(self@.cells, pos, dir, piece, is_second, 1),
    {
        let ghost cells = self@.cells;
        let ghost total = dest@ + slide_moves(cells, pos, dir, piece, is_second, 1);
        let mut i: i32 = 1;
        while i < BOARD_SIZE
            invariant
                1 <= i <= 9,
                on_board(pos),
                -1 <= dir.0 <= 1,
                -1 <= dir.1 <= 1,
                cells == self@.cells,
                total == old(dest)@ + slide_moves(cells, pos, dir, piece, is_second, 1),
                dest@ + slide_moves(cells, pos, dir, piece, is_second, i as int) == total,
            decreases 9 - i,
        {
            assert(-8 <= dir.0 * i <= 8 && -8 <= dir.1 * i <= 8) by (nonlinear_arith)
                requires
                    -1 <= dir.0 <= 1,
                    -1 <= dir.1 <= 1,
                    1 <= i <= 8,
            ;
            let pos2 = pos + dir * i;
            assert(pos2 == pos.along(dir, i as int));
            if !self.is_inside_board(pos2) {
                assert(total =~= dest@);
                return ;
            }
            let piece2 = self.get_sided_piece(pos2);
            if (!is_second && piece2.is_first()) || (is_second && piece2.is_second()) {
                assert(total =~= dest@);
                return ;
            }
            let ghost before = dest@;
            if piece.has_promotion() && (Board::is_promotion_zone(pos, is_second)
                || Board::is_promotion_zone(pos2, is_second)) {
                dest.push(Move::Promotion(pos, pos2));
            }
            if Board::has_further_move(pos2, piece, is_second) {
                dest.push(Move::NoPromotion(pos, pos2));
            }
            assert(dest@ =~= before + arrivals(piece, is_second, pos, pos2));
            if !piece2.is_empty() {
                assert(total =~= dest@);
                return ;
            }
            assert(total =~= dest@ + slide_moves(cells, pos, dir, piece, is_second, i + 1));
            i += 1;
        }
        assert(total =~= dest@);
    }

    /// The checking moves of the first player, for a board whose king is
    /// not in check: every move of a first-player piece on the board after
    /// which the king is in check, cell by cell in the order of
    /// `enumerate_moves`; then the drops from the first player's hand that
    /// attack the king, for each kind held onto the empty cells a single step
    /// of that kind from the king, and for a held lance, bishop and rook onto
    /// the empty cells along their lines through the king.
    #[verifier::rlimit(40)]
    pub fn enumerate_check(&self) -> (ret: Vec<Move>)
        requires
            cells_wf(self@.cells),
            one_king(self@.cells),
            !in_check(self@.cells),
        ensures
            ret@ == checks(self@.cells, self@.first_hand),
            forall|mv: Move| #[trigger]
                ret@.contains(mv) <==> (is_side_move(self@.cells, false, mv) || is_drop(
                    self@.cells,
                    self@.first_hand,
                    mv,
                )) && in_check(cells_after(self@.cells, mv)),
    {
        let ghost cells = self@.cells;
        let ghost hand = self@.first_hand;
        let ghost pred = gives_check(cells);
        let mut ret: Vec<Move> = Vec::new();
        assert(ret@ =~= side_moves(cells, false, 0).filter(pred)) by {
            reveal(Seq::filter);
        }
        let mut y: i32 = 0;
        while y < BOARD_SIZE
            invariant
                0 <= y <= 9,
                cells == self@.cells,
                pred == gives_check(cells),
                cells_wf(cells),
                one_king(cells),
                !in_check(cells),
                ret@ == side_moves(cells, false, y * 9).filter(pred),
            decreases 9 - y,
        {
            let mut x: i32 = 0;
            while x < BOARD_SIZE
                invariant
                    0 <= y < 9,
                    0 <= x <= 9,
                    cells == self@.cells,
                    pred == gives_check(cells),
                    cells_wf(cells),
                    one_king(cells),
                    !in_check(cells),
                    ret@ == side_moves(cells, false, y * 9 + x).filter(pred),
                decreases 9 - x,
            {
                let pos = P(y, x);
                let piece = self.get_sided_piece(pos);
                let ghost idx = y * 9 + x;
                let ghost before = side_moves(cells, false, idx);
                assert(cell_of(idx) == pos);
                if piece.is_first() {
                    let moves = self.enumerate_moves(pos);
                    let mut m: usize = 0;
                    assert(moves@.take(0) =~= Seq::empty());
                    assert(ret@ =~= (before + moves@.take(0)).filter(pred));
                    while m < moves.len()
                        invariant
                            0 <= m <= moves.len(),
                            on_board(pos),
                            piece_at(cells, pos).is_first(),
                            cells == self@.cells,
                            pred == gives_check(cells),
                            cells_wf(cells),
                            one_king(cells),
                            !in_check(cells),
                            moves@ == moves_from(cells, pos),
                            ret@ == (before + moves@.take(m as int)).filter(pred),
                        decreases moves.len() - m,
                    {
                        let mv = moves[m];
                        proof {
                            lemma_first_move_keeps_king(cells, pos, mv);
                            lemma_listed_move_admitted(self@, pos, mv);
                        }
                        let mut board = self.clone();
                        board.apply_move(mv);
                        if board.is_check() {
                            ret.push(mv);
                        }
                        proof {
                            let seen = before + moves@.take(m as int);
                            assert(before + moves@.take(m + 1) =~= seen.push(mv));
                            seen.lemma_filter_push(mv, pred);
                        }
                        m += 1;
                    }
                    assert(moves@.take(m as int) =~= moves@);
                } else {
                    assert(before + Seq::<Move>::empty() =~= before);
                }
                x += 1;
            }
            y += 1;
        }
        let king_pos = self.locate_second_king();
        let ghost on_board_part = ret@;
        assert(ret@ =~= on_board_part + held_step_drops(cells, hand, king_pos, 0));
        let mut i: usize = 0;
        while i < HAND_TYPES
            invariant
                0 <= i <= 7,
                on_board(king_pos),
                cells == self@.cells,
                hand == self@.first_hand,
                ret@ == on_board_part + held_step_drops(cells, hand, king_pos, i as int),
            decreases 7 - i,
        {
            let ghost before = ret@;
            if self.hand_first[i] > 0 {
                let piece = Piece(i as i8);
                let mut j: usize = 0;
                assert(ret@ =~= before + step_drops(cells, king_pos, i as int, 0));
                while j < PIECE_MOVES_COUNT && step_offset(piece, j) != D(0, 0)
                    invariant
                        0 <= i < 7,
                        0 <= j <= 8,
                        j <= step_count(i as int),
                        piece == Piece(i as i8),
                        on_board(king_pos),
                        cells == self@.cells,
                        ret@ == before + step_drops(cells, king_pos, i as int, j as int),
                    decreases 8 - j,
                {
                    proof {
                        lemma_step_table(i as int, j as int);
                    }
                    let ghost so_far = ret@;
                    let pos = king_pos + step_offset(piece, j).flip();
                    if self.is_inside_board(pos) {
                        if self.get_sided_piece(pos).is_empty() {
                            ret.push(Move::FromHand(pos, SidedPiece(i as i8)));
                        }
                    }
                    assert(ret@ =~= before + step_drops(cells, king_pos, i as int, j + 1));
                    j += 1;
                }
                proof {
                    lemma_step_table(i as int, j as int);
                }
            }
            assert(ret@ =~= on_board_part + held_step_drops(cells, hand, king_pos, i + 1));
            i += 1;
        }
        let ghost stepped = ret@;
        assert(stepped == on_board_part + held_step_drops(cells, hand, king_pos, 7));
        if self.hand_first[PIECE_LANCE as usize] > 0 {
            self.enumerate_check_from_hand_ranging(
                king_pos,
                D(1, 0),
                Piece(PIECE_LANCE).as_first(),
                &mut ret,
            );
        } else {
            assert(ret@ =~= stepped + lance_drops(cells, hand, king_pos));
        }
        let ghost with_lance = ret@;
        assert(with_lance == stepped + lance_drops(cells, hand, king_pos));
        if self.hand_first[PIECE_BISHOP as usize] > 0 {
            let bishop = Piece(PIECE_BISHOP).as_first();
            self.enumerate_check_from_hand_ranging(king_pos, D(-1, -1), bishop, &mut ret);
            self.enumerate_check_from_hand_ranging(king_pos, D(-1, 1), bishop, &mut ret);
            self.enumerate_check_from_hand_ranging(king_pos, D(1, -1), bishop, &mut ret);
            self.enumerate_check_from_hand_ranging(king_pos, D(1, 1), bishop, &mut ret);
            assert(ret@ =~= with_lance + bishop_drops(cells, hand, king_pos));
        } else {
            assert(ret@ =~= with_lance + bishop_drops(cells, hand, king_pos));
        }
        let ghost with_bishop = ret@;
        assert(with_bishop == with_lance + bishop_drops(cells, hand, king_pos));
        if self.hand_first[PIECE_ROOK as usize] > 0 {
            let rook = Piece(PIECE_ROOK).as_first();
            self.enumerate_check_from_hand_ranging(king_pos, D(-1, 0), rook, &mut ret);
            self.enumerate_check_from_hand_ranging(king_pos, D(0, -1), rook, &mut ret);
            self.enumerate_check_from_hand_ranging(king_pos, D(0, 1), rook, &mut ret);
            self.enumerate_check_from_hand_ranging(king_pos, D(1, 0), rook, &mut ret);
            assert(ret@ =~= with_bishop + rook_drops(cells, hand, king_pos));
        } else {
            assert(ret@ =~= with_bishop + rook_drops(cells, hand, king_pos));
        }
        proof {
            lemma_checks_joined(cells, hand, on_board_part, ret@);
            self.lemma_shape();
            lemma_checks_listed(cells, hand);
        }
        assert(ret@ =~= on_board_part + drop_checks(cells, hand, king_pos));
        ret
    }

    /// Appends to `dest` the drops of `piece` onto the cells along `dir` from
    /// `pos`, nearest first, as long as the cells lie on the board and are
    /// empty.
    pub fn enumerate_check_from_hand_ranging(
        &self,
        pos: P,
        dir: D,
        piece: SidedPiece,
        dest: &mut Vec<Move>,
    )
        requires
            walk_fits(pos, dir),
        ensures
            final(dest)@ == old(dest)@ + ray_drops(self@.cells, pos, dir, piece, 1),
    {
        let ghost cells = self@.cells;
        let ghost total = dest@ + ray_drops(cells, pos, dir, piece, 1);
        let mut i: i32 = 1;
        while i < BOARD_SIZE
            invariant
                1 <= i <= 9,
                walk_fits(pos, dir),
                cells == self@.cells,
                total == old(dest)@ + ray_drops(cells, pos, dir, piece, 1),
                dest@ + ray_drops(cells, pos, dir, piece, i as int) == total,
            decreases 9 - i,
        {
            proof {
                lemma_walk_fits(pos, dir, i as int);
            }
            let pos2 = pos + dir * i;
            assert(pos2 == pos.along(dir, i as int));
            if !self.is_inside_board(pos2) {
                assert(total =~= dest@);
                return ;
            }
            if !self.get_sided_piece(pos2).is_empty() {
                assert(total =~= dest@);
                return ;
            }
            dest.push(Move::FromHand(pos2, piece));
            assert(total =~= dest@ + ray_drops(cells, pos, dir, piece, i + 1));
            i += 1;
        }
        assert(total =~= dest@);
    }

    /// The moves of the second player's pieces on the board after which the
    /// king is not in check, cell by cell in the order of `enumerate_moves`.
    pub fn enumerate_check_avoidance(&self) -> (ret: Vec<Move>)
        requires
            cells_wf(self@.cells),
            one_king(self@.cells),
        ensures
            ret@ == avoidances(self@.cells),
            forall|mv: Move| #[trigger]
                ret@.contains(mv) <==> is_side_move(self@.cells, true, mv) && !in_check(
                    cells_after(self@.cells, mv),
                ),
    {
        let ghost cells = self@.cells;
        let ghost pred = avoids_check(cells);
        let mut ret: Vec<Move> = Vec::new();
        assert(ret@ =~= side_moves(cells, true, 0).filter(pred)) by {
            reveal(Seq::filter);
        }
        let mut y: i32 = 0;
        while y < BOARD_SIZE
            invariant
                0 <= y <= 9,
                cells == self@.cells,
                pred == avoids_check(cells),
                cells_wf(cells),
                one_king(cells),
                ret@ == side_moves(cells, true, y * 9).filter(pred),
            decreases 9 - y,
        {
            let mut x: i32 = 0;
            while x < BOARD_SIZE
                invariant
                    0 <= y < 9,
                    0 <= x <= 9,
                    cells == self@.cells,
                    pred == avoids_check(cells),
                    cells_wf(cells),
                    one_king(cells),
                    ret@ == side_moves(cells, true, y * 9 + x).filter(pred),
                decreases 9 - x,
            {
                let pos = P(y, x);
                let piece = self.get_sided_piece(pos);
                let ghost idx = y * 9 + x;
                let ghost before = side_moves(cells, true, idx);
                assert(cell_of(idx) == pos);
                if piece.is_second() {
                    let moves = self.enumerate_moves(pos);
                    let mut m: usize = 0;
                    assert(moves@.take(0) =~= Seq::empty());
                    assert(ret@ =~= (before + moves@.take(0)).filter(pred));
                    while m < moves.len()
                        invariant
                            0 <= m <= moves.len(),
                            on_board(pos),
                            piece_at(cells, pos).is_second(),
                            cells == self@.cells,
                            pred == avoids_check(cells),
                            cells_wf(cells),
                            one_king(cells),
                            moves@ == moves_from(cells, pos),
                            ret@ == (before + moves@.take(m as int)).filter(pred),
                        decreases moves.len() - m,
                    {
                        let mv = moves[m];
                        proof {
                            lemma_second_move_keeps_king(cells, pos, mv);
                            lemma_listed_move_admitted(self@, pos, mv);
                        }
                        let mut board = self.clone();
                        board.apply_move(mv);
                        if !board.is_check() {
                            ret.push(mv);
                        }
                        proof {
                            let seen = before + moves@.take(m as int);
                            assert(before + moves@.take(m + 1) =~= seen.push(mv));
                            seen.lemma_filter_push(mv, pred);
                        }
                        m += 1;
                    }
                    assert(moves@.take(m as int) =~= moves@);
                } else {
                    assert(before + Seq::<Move>::empty() =~= before);
                }
                x += 1;
            }
            y += 1;
        }
        proof {
            lemma_avoidances_listed(cells);
        }
        ret
    }

    /// Whether the second player is checkmated: none of its moves on the
    /// board leaves the king out of check.
    pub fn is_checkmate(&self) -> (r: bool)
        requires
            cells_wf(self@.cells),
            one_king(self@.cells),
        ensures
            r == checkmate(self@.cells),
            r <==> forall|mv: Move| #[trigger]
                is_side_move(self@.cells, true, mv) ==> in_check(cells_after(self@.cells, mv)),
    {
        proof {
            lemma_checkmate_is_no_escape(self@.cells);
        }
        self.enumerate_check_avoidance().len() == 0
    }
}

} // verus!
