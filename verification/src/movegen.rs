//! The rules of movement: which moves a piece on the board has.

use crate::common::{
    step_at, step_count, Move, Piece, SidedPiece, PIECE_BISHOP, PIECE_KNIGHT, PIECE_LANCE,
    PIECE_PAWN, PIECE_PROMOTED_BISHOP, PIECE_PROMOTED_ROOK, PIECE_ROOK,
};
use crate::pos::{D, P};
use crate::position::{cells_after, lemma_cell_index, on_board, piece_at};
use vstd::prelude::*;
use vstd::seq_lib::lemma_seq_concat_contains_all_elements;

verus! {

/// Whether `piece` belongs to the player that `is_second` names.
pub open spec fn friendly(piece: SidedPiece, is_second: bool) -> bool {
    if is_second {
        piece.is_second()
    } else {
        piece.is_first()
    }
}

/// Whether the row of `pos` is one of the three farthest from the player.
pub open spec fn promotion_zone(pos: P, is_second: bool) -> bool {
    if is_second {
        pos.0 >= 6
    } else {
        pos.0 <= 2
    }
}

/// Whether an unpromoted `piece` on `pos` still has a row ahead of it to move
/// to: a pawn or a lance has none on the last row, a knight none on the last
/// two.
pub open spec fn can_move_on(pos: P, piece: Piece, is_second: bool) -> bool {
    if piece.0 == PIECE_PAWN || piece.0 == PIECE_LANCE {
        if is_second {
            pos.0 != 8
        } else {
            pos.0 != 0
        }
    } else if piece.0 == PIECE_KNIGHT {
        if is_second {
            pos.0 < 7
        } else {
            pos.0 > 1
        }
    } else {
        true
    }
}

/// Whether `piece`, moving from `src` to `dst`, may promote: it has a
/// promoted form, and the move starts or ends in the promotion zone.
pub open spec fn may_promote(piece: Piece, is_second: bool, src: P, dst: P) -> bool {
    piece.has_promotion() && (promotion_zone(src, is_second) || promotion_zone(dst, is_second))
}

/// The moves that take `piece` from `src` to `dst`: the promoting one if the
/// piece may promote, then the plain one unless the piece could never move
/// again from `dst`.
pub open spec fn arrivals(piece: Piece, is_second: bool, src: P, dst: P) -> Seq<Move> {
    let promoting = if may_promote(piece, is_second, src, dst) {
        seq![Move::Promotion(src, dst)]
    } else {
        Seq::empty()
    };
    let staying = if can_move_on(dst, piece, is_second) {
        seq![Move::NoPromotion(src, dst)]
    } else {
        Seq::empty()
    };
    promoting + staying
}

/// Whether a piece of the player `is_second` may land on `dst`: the cell is
/// on the board and holds no piece of the same player.
pub open spec fn landable(cells: Seq<SidedPiece>, is_second: bool, dst: P) -> bool {
    on_board(dst) && !friendly(piece_at(cells, dst), is_second)
}

/// The cell that step `j` of `piece` leads to from `src`. The step table is
/// written for the first player; the second player's steps are its mirror
/// image.
pub open spec fn step_target(piece: Piece, is_second: bool, src: P, j: int) -> P {
    src.shifted(step_at(piece.0 as int, j).flipped_if(is_second))
}

/// The moves of `piece` on `src` by one of its first `n` single steps, in
/// the order of the step table.
pub open spec fn step_moves(
    cells: Seq<SidedPiece>,
    src: P,
    piece: Piece,
    is_second: bool,
    n: int,
) -> Seq<Move>
    decreases n,
{
    if n <= 0 {
        Seq::empty()
    } else {
        let dst = step_target(piece, is_second, src, n - 1);
        step_moves(cells, src, piece, is_second, n - 1) + (if landable(cells, is_second, dst) {
            arrivals(piece, is_second, src, dst)
        } else {
            Seq::empty()
        })
    }
}

/// The moves of `piece` on `src` that slide `i` or more cells along `dir`,
/// nearest first, given that the cells before are empty: the slide ends at the
/// edge of the board, before a piece of the same player, or on a piece of the
/// other player.
pub open spec fn slide_moves(
    cells: Seq<SidedPiece>,
    src: P,
    dir: D,
    piece: Piece,
    is_second: bool,
    i: int,
) -> Seq<Move>
    decreases 9 - i,
{
    if i >= 9 {
        Seq::empty()
    } else {
        let dst = src.along(dir, i);
        if !landable(cells, is_second, dst) {
            Seq::empty()
        } else {
            arrivals(piece, is_second, src, dst) + (if piece_at(cells, dst).is_empty() {
                slide_moves(cells, src, dir, piece, is_second, i + 1)
            } else {
                Seq::empty()
            })
        }
    }
}

/// Whether `piece` slides like a bishop: it is a bishop or a promoted one.
pub open spec fn slides_diagonally(piece: Piece) -> bool {
    piece.0 == PIECE_BISHOP || piece.0 == PIECE_PROMOTED_BISHOP
}

/// Whether `piece` slides like a rook: it is a rook or a promoted one.
pub open spec fn slides_orthogonally(piece: Piece) -> bool {
    piece.0 == PIECE_ROOK || piece.0 == PIECE_PROMOTED_ROOK
}

/// Whether `dir` is one of the four diagonal directions.
pub open spec fn diagonal(dir: D) -> bool {
    (dir.0 == -1 || dir.0 == 1) && (dir.1 == -1 || dir.1 == 1)
}

/// Whether `dir` is one of the four directions along a row or a column.
pub open spec fn orthogonal(dir: D) -> bool {
    ((dir.0 == -1 || dir.0 == 1) && dir.1 == 0) || (dir.0 == 0 && (dir.1 == -1 || dir.1 == 1))
}

/// Whether `piece` slides along `dir`: a lance straight ahead, a bishop and
/// a promoted bishop along the diagonals, a rook and a promoted rook along the
/// rows and columns.
pub open spec fn slides_along(piece: Piece, is_second: bool, dir: D) -> bool {
    ||| piece.0 == PIECE_LANCE && dir == D::of(-1, 0).flipped_if(is_second)
    ||| slides_diagonally(piece) && diagonal(dir)
    ||| slides_orthogonally(piece) && orthogonal(dir)
}

/// The sliding moves of `piece` on `src`, direction by direction.
pub open spec fn sliding_moves(
    cells: Seq<SidedPiece>,
    src: P,
    piece: Piece,
    is_second: bool,
) -> Seq<Move> {
    if piece.0 == PIECE_LANCE {
        slide_moves(cells, src, D::of(-1, 0).flipped_if(is_second), piece, is_second, 1)
    } else if slides_diagonally(piece) {
        slide_moves(cells, src, D::of(-1, -1), piece, is_second, 1) + slide_moves(
            cells,
            src,
            D::of(-1, 1),
            piece,
            is_second,
            1,
        ) + slide_moves(cells, src, D::of(1, -1), piece, is_second, 1) + slide_moves(
            cells,
            src,
            D::of(1, 1),
            piece,
            is_second,
            1,
        )
    } else if slides_orthogonally(piece) {
        slide_moves(cells, src, D::of(-1, 0), piece, is_second, 1) + slide_moves(
            cells,
            src,
            D::of(0, -1),
            piece,
            is_second,
            1,
        ) + slide_moves(cells, src, D::of(0, 1), piece, is_second, 1) + slide_moves(
            cells,
            src,
            D::of(1, 0),
            piece,
            is_second,
            1,
        )
    } else {
        Seq::empty()
    }
}

/// Whether one of the single steps of `piece` leads from `src` to `dst`.
pub open spec fn steps_to(piece: Piece, is_second: bool, src: P, dst: P) -> bool {
    exists|j: int|
        0 <= j < step_count(piece.0 as int) && #[trigger] step_target(piece, is_second, src, j)
            == dst
}

/// Whether the cells strictly between `src` and the cell `n` steps of `dir`
/// away all lie on the board and are empty.
pub open spec fn clear_between(cells: Seq<SidedPiece>, src: P, dir: D, n: int) -> bool {
    forall|t: int|
        0 < t < n ==> on_board(#[trigger] src.along(dir, t)) && piece_at(
            cells,
            src.along(dir, t),
        ).is_empty()
}

/// Whether `dst` lies `n` cells from `src` along `dir`, with nothing in
/// between.
pub open spec fn slides_by(cells: Seq<SidedPiece>, src: P, dir: D, n: int, dst: P) -> bool {
    1 <= n < 9 && src.along(dir, n) == dst && clear_between(cells, src, dir, n)
}

/// Whether `piece` slides from `src` to `dst` along one of its directions
/// over empty cells.
pub open spec fn slides_to(
    cells: Seq<SidedPiece>,
    piece: Piece,
    is_second: bool,
    src: P,
    dst: P,
) -> bool {
    exists|dir: D, n: int|
        slides_along(piece, is_second, dir) && #[trigger] slides_by(cells, src, dir, n, dst)
}

/// Whether the piece on `src` can move to `dst`: `src` holds a piece, `dst`
/// lies on the board and holds no piece of the same player, and a single step
/// or a slide of the piece leads there.
pub open spec fn reaches(cells: Seq<SidedPiece>, src: P, dst: P) -> bool {
    let sided = piece_at(cells, src);
    &&& on_board(src)
    &&& sided.is_piece()
    &&& landable(cells, sided.is_second(), dst)
    &&& (steps_to(sided.to_piece(), sided.is_second(), src, dst) || slides_to(
        cells,
        sided.to_piece(),
        sided.is_second(),
        src,
        dst,
    ))
}

/// The moves of the piece on `src`, in the order in which they are listed:
/// first those by a single step, then the sliding ones. An empty cell has none.
pub open spec fn moves_from(cells: Seq<SidedPiece>, src: P) -> Seq<Move> {
    let sided = piece_at(cells, src);
    if sided.is_empty() {
        Seq::empty()
    } else {
        let piece = sided.to_piece();
        let is_second = sided.is_second();
        step_moves(cells, src, piece, is_second, step_count(piece.0 as int)) + sliding_moves(
            cells,
            src,
            piece,
            is_second,
        )
    }
}

/// Whether `mv` is a move of the piece on `src` as the rules have it: it
/// takes the piece from `src` to a cell that the piece reaches, promoting only
/// where the piece may promote, and staying as it is only where the piece
/// could move again.
pub open spec fn is_move_of(cells: Seq<SidedPiece>, src: P, mv: Move) -> bool {
    let sided = piece_at(cells, src);
    match mv {
        Move::NoPromotion(s, dst) => s == src && reaches(cells, src, dst) && can_move_on(
            dst,
            sided.to_piece(),
            sided.is_second(),
        ),
        Move::Promotion(s, dst) => s == src && reaches(cells, src, dst) && may_promote(
            sided.to_piece(),
            sided.is_second(),
            src,
            dst,
        ),
        Move::FromHand(_, _) => false,
    }
}

/// Which moves `arrivals` lists.
pub proof fn lemma_arrivals(piece: Piece, is_second: bool, src: P, dst: P, mv: Move)
    ensures
        arrivals(piece, is_second, src, dst).contains(mv) <==> (mv == Move::Promotion(src, dst)
            && may_promote(piece, is_second, src, dst)) || (mv == Move::NoPromotion(src, dst)
            && can_move_on(dst, piece, is_second)),
{
    let promoting = if may_promote(piece, is_second, src, dst) {
        seq![Move::Promotion(src, dst)]
    } else {
        Seq::empty()
    };
    let staying = if can_move_on(dst, piece, is_second) {
        seq![Move::NoPromotion(src, dst)]
    } else {
        Seq::empty()
    };
    lemma_seq_concat_contains_all_elements(promoting, staying, mv);
    if may_promote(piece, is_second, src, dst) {
        assert(promoting[0] == Move::Promotion(src, dst));
    }
    if can_move_on(dst, piece, is_second) {
        assert(staying[0] == Move::NoPromotion(src, dst));
    }
}

/// Whether `mv` is one of the moves by step `j` of `piece` from `src`.
pub open spec fn by_step(
    cells: Seq<SidedPiece>,
    src: P,
    piece: Piece,
    is_second: bool,
    j: int,
    mv: Move,
) -> bool {
    let dst = step_target(piece, is_second, src, j);
    landable(cells, is_second, dst) && arrivals(piece, is_second, src, dst).contains(mv)
}

/// A move is among those by the first `n` steps exactly when it is a move by
/// one of them.
pub proof fn lemma_step_moves(
    cells: Seq<SidedPiece>,
    src: P,
    piece: Piece,
    is_second: bool,
    n: int,
    mv: Move,
)
    ensures
        step_moves(cells, src, piece, is_second, n).contains(mv) <==> exists|j: int|
            0 <= j < n && #[trigger] by_step(cells, src, piece, is_second, j, mv),
    decreases n,
{
    if n > 0 {
        lemma_step_moves(cells, src, piece, is_second, n - 1, mv);
        let dst = step_target(piece, is_second, src, n - 1);
        let last = if landable(cells, is_second, dst) {
            arrivals(piece, is_second, src, dst)
        } else {
            Seq::empty()
        };
        lemma_seq_concat_contains_all_elements(
            step_moves(cells, src, piece, is_second, n - 1),
            last,
            mv,
        );
        if last.contains(mv) {
            assert(by_step(cells, src, piece, is_second, n - 1, mv));
        }
        if exists|j: int| 0 <= j < n && #[trigger] by_step(cells, src, piece, is_second, j, mv) {
            let j = choose|j: int|
                0 <= j < n && #[trigger] by_step(cells, src, piece, is_second, j, mv);
            if j < n - 1 {
                assert(by_step(cells, src, piece, is_second, j, mv));
            }
        }
    }
}

/// Whether `mv` is one of the moves of `piece` from `src` to the cell `n`
/// steps of `dir` away, over empty cells.
pub open spec fn by_slide(
    cells: Seq<SidedPiece>,
    src: P,
    dir: D,
    piece: Piece,
    is_second: bool,
    n: int,
    mv: Move,
) -> bool {
    let dst = src.along(dir, n);
    &&& slides_by(cells, src, dir, n, dst)
    &&& landable(cells, is_second, dst)
    &&& arrivals(piece, is_second, src, dst).contains(mv)
}

/// Where the cells before distance `i` are empty, a move is among the slides
/// of `i` or more cells exactly when it is a slide to some cell at such a
/// distance over empty cells.
pub proof fn lemma_slide_moves(
    cells: Seq<SidedPiece>,
    src: P,
    dir: D,
    piece: Piece,
    is_second: bool,
    i: int,
    mv: Move,
)
    requires
        1 <= i <= 9,
        clear_between(cells, src, dir, i),
    ensures
        slide_moves(cells, src, dir, piece, is_second, i).contains(mv) <==> exists|n: int|
            i <= n && #[trigger] by_slide(cells, src, dir, piece, is_second, n, mv),
    decreases 9 - i,
{
    let found = exists|n: int|
        i <= n && #[trigger] by_slide(cells, src, dir, piece, is_second, n, mv);
    if i >= 9 {
    } else {
        let dst = src.along(dir, i);
        if !landable(cells, is_second, dst) {
            if found {
                let n = choose|n: int|
                    i <= n && #[trigger] by_slide(cells, src, dir, piece, is_second, n, mv);
                if n > i {
                    let near = src.along(dir, i);
                    assert(on_board(near) && piece_at(cells, near).is_empty());
                }
            }
        } else {
            let here = arrivals(piece, is_second, src, dst);
            let rest = if piece_at(cells, dst).is_empty() {
                slide_moves(cells, src, dir, piece, is_second, i + 1)
            } else {
                Seq::empty()
            };
            lemma_seq_concat_contains_all_elements(here, rest, mv);
            if here.contains(mv) {
                assert(by_slide(cells, src, dir, piece, is_second, i, mv));
            }
            if piece_at(cells, dst).is_empty() {
                assert(clear_between(cells, src, dir, i + 1));
                lemma_slide_moves(cells, src, dir, piece, is_second, i + 1, mv);
                if rest.contains(mv) {
                    let n = choose|n: int|
                        i + 1 <= n && #[trigger] by_slide(cells, src, dir, piece, is_second, n, mv);
                    assert(i <= n && by_slide(cells, src, dir, piece, is_second, n, mv));
                }
            }
            if found {
                let n = choose|n: int|
                    i <= n && #[trigger] by_slide(cells, src, dir, piece, is_second, n, mv);
                if n > i {
                    let near = src.along(dir, i);
                    assert(on_board(near) && piece_at(cells, near).is_empty());
                    assert(i + 1 <= n && by_slide(cells, src, dir, piece, is_second, n, mv));
                }
            }
        }
    }
}

/// Whether `mv` is a slide of `piece` from `src` along `dir`.
pub open spec fn by_slide_along(
    cells: Seq<SidedPiece>,
    src: P,
    dir: D,
    piece: Piece,
    is_second: bool,
    mv: Move,
) -> bool {
    exists|n: int| 1 <= n && #[trigger] by_slide(cells, src, dir, piece, is_second, n, mv)
}

/// A move is among the sliding moves of a piece exactly when it is a slide
/// along one of the directions of the piece.
pub proof fn lemma_sliding_moves(
    cells: Seq<SidedPiece>,
    src: P,
    piece: Piece,
    is_second: bool,
    mv: Move,
)
    ensures
        sliding_moves(cells, src, piece, is_second).contains(mv) <==> exists|dir: D|
            slides_along(piece, is_second, dir) && #[trigger] by_slide_along(
                cells,
                src,
                dir,
                piece,
                is_second,
                mv,
            ),
{
    let a = D::of(-1, 0).flipped_if(is_second);
    lemma_slide_moves(cells, src, a, piece, is_second, 1, mv);
    let d1 = D::of(-1, -1);
    let d2 = D::of(-1, 1);
    let d3 = D::of(1, -1);
    let d4 = D::of(1, 1);
    lemma_slide_moves(cells, src, d1, piece, is_second, 1, mv);
    lemma_slide_moves(cells, src, d2, piece, is_second, 1, mv);
    lemma_slide_moves(cells, src, d3, piece, is_second, 1, mv);
    lemma_slide_moves(cells, src, d4, piece, is_second, 1, mv);
    let o1 = D::of(-1, 0);
    let o2 = D::of(0, -1);
    let o3 = D::of(0, 1);
    let o4 = D::of(1, 0);
    lemma_slide_moves(cells, src, o1, piece, is_second, 1, mv);
    lemma_slide_moves(cells, src, o2, piece, is_second, 1, mv);
    lemma_slide_moves(cells, src, o3, piece, is_second, 1, mv);
    lemma_slide_moves(cells, src, o4, piece, is_second, 1, mv);
    let s1 = slide_moves(cells, src, d1, piece, is_second, 1);
    let s2 = slide_moves(cells, src, d2, piece, is_second, 1);
    let s3 = slide_moves(cells, src, d3, piece, is_second, 1);
    let s4 = slide_moves(cells, src, d4, piece, is_second, 1);
    lemma_seq_concat_contains_all_elements(s1, s2, mv);
    lemma_seq_concat_contains_all_elements(s1 + s2, s3, mv);
    lemma_seq_concat_contains_all_elements(s1 + s2 + s3, s4, mv);
    let r1 = slide_moves(cells, src, o1, piece, is_second, 1);
    let r2 = slide_moves(cells, src, o2, piece, is_second, 1);
    let r3 = slide_moves(cells, src, o3, piece, is_second, 1);
    let r4 = slide_moves(cells, src, o4, piece, is_second, 1);
    lemma_seq_concat_contains_all_elements(r1, r2, mv);
    lemma_seq_concat_contains_all_elements(r1 + r2, r3, mv);
    lemma_seq_concat_contains_all_elements(r1 + r2 + r3, r4, mv);
    let found = exists|dir: D|
        slides_along(piece, is_second, dir) && #[trigger] by_slide_along(
            cells,
            src,
            dir,
            piece,
            is_second,
            mv,
        );
    if sliding_moves(cells, src, piece, is_second).contains(mv) {
        if piece.0 == PIECE_LANCE {
            assert(by_slide_along(cells, src, a, piece, is_second, mv));
        } else if slides_diagonally(piece) {
            assert(by_slide_along(cells, src, d1, piece, is_second, mv) || by_slide_along(
                cells,
                src,
                d2,
                piece,
                is_second,
                mv,
            ) || by_slide_along(cells, src, d3, piece, is_second, mv) || by_slide_along(
                cells,
                src,
                d4,
                piece,
                is_second,
                mv,
            ));
        } else {
            assert(by_slide_along(cells, src, o1, piece, is_second, mv) || by_slide_along(
                cells,
                src,
                o2,
                piece,
                is_second,
                mv,
            ) || by_slide_along(cells, src, o3, piece, is_second, mv) || by_slide_along(
                cells,
                src,
                o4,
                piece,
                is_second,
                mv,
            ));
        }
    }
    if found {
        let dir = choose|dir: D|
            slides_along(piece, is_second, dir) && #[trigger] by_slide_along(
                cells,
                src,
                dir,
                piece,
                is_second,
                mv,
            );
        if piece.0 == PIECE_LANCE {
            assert(dir == a);
        } else if slides_diagonally(piece) {
            assert(dir == d1 || dir == d2 || dir == d3 || dir == d4);
        } else {
            assert(dir == o1 || dir == o2 || dir == o3 || dir == o4);
        }
    }
}

/// The moves listed for the piece on `src` are exactly its moves as the
/// rules have them.
pub proof fn lemma_moves_from(cells: Seq<SidedPiece>, src: P, mv: Move)
    requires
        on_board(src),
        piece_at(cells, src).valid(),
    ensures
        moves_from(cells, src).contains(mv) <==> is_move_of(cells, src, mv),
{
    let sided = piece_at(cells, src);
    if !sided.is_empty() {
        let piece = sided.to_piece();
        let is_second = sided.is_second();
        let count = step_count(piece.0 as int);
        let steps = step_moves(cells, src, piece, is_second, count);
        let slides = sliding_moves(cells, src, piece, is_second);
        lemma_seq_concat_contains_all_elements(steps, slides, mv);
        lemma_step_moves(cells, src, piece, is_second, count, mv);
        lemma_sliding_moves(cells, src, piece, is_second, mv);
        if steps.contains(mv) {
            let j = choose|j: int|
                0 <= j < count && #[trigger] by_step(cells, src, piece, is_second, j, mv);
            let dst = step_target(piece, is_second, src, j);
            lemma_arrivals(piece, is_second, src, dst, mv);
            assert(steps_to(piece, is_second, src, dst));
        }
        if slides.contains(mv) {
            let dir = choose|dir: D|
                slides_along(piece, is_second, dir) && #[trigger] by_slide_along(
                    cells,
                    src,
                    dir,
                    piece,
                    is_second,
                    mv,
                );
            let n = choose|n: int|
                1 <= n && #[trigger] by_slide(cells, src, dir, piece, is_second, n, mv);
            let dst = src.along(dir, n);
            lemma_arrivals(piece, is_second, src, dst, mv);
            assert(slides_by(cells, src, dir, n, dst));
            assert(slides_to(cells, piece, is_second, src, dst));
        }
        if is_move_of(cells, src, mv) {
            let dst = mv.target();
            lemma_arrivals(piece, is_second, src, dst, mv);
            if steps_to(piece, is_second, src, dst) {
                let j = choose|j: int|
                    0 <= j < count && #[trigger] step_target(piece, is_second, src, j) == dst;
                assert(by_step(cells, src, piece, is_second, j, mv));
            } else {
                let (dir, n) = choose|dir: D, n: int|
                    slides_along(piece, is_second, dir) && #[trigger] slides_by(
                        cells,
                        src,
                        dir,
                        n,
                        dst,
                    );
                assert(by_slide(cells, src, dir, piece, is_second, n, mv));
                assert(by_slide_along(cells, src, dir, piece, is_second, mv));
            }
        }
    }
}

/// The same of every move at once.
pub proof fn lemma_moves_listed(cells: Seq<SidedPiece>, src: P)
    requires
        on_board(src),
        piece_at(cells, src).valid(),
    ensures
        forall|mv: Move| #[trigger]
            moves_from(cells, src).contains(mv) <==> is_move_of(cells, src, mv),
{
    assert forall|mv: Move| #[trigger]
        moves_from(cells, src).contains(mv) <==> is_move_of(cells, src, mv) by {
        lemma_moves_from(cells, src, mv);
    }
}

/// Every cell that the piece on `src` reaches has a move listed that takes
/// the piece there: the plain one, or, where the piece could never move again
/// from there, the promoting one.
pub proof fn lemma_reached_cell_has_move(cells: Seq<SidedPiece>, src: P, dst: P) -> (mv: Move)
    requires
        piece_at(cells, src).valid(),
        reaches(cells, src, dst),
    ensures
        moves_from(cells, src).contains(mv),
        mv.target() == dst,
{
    let sided = piece_at(cells, src);
    let mv = if can_move_on(dst, sided.to_piece(), sided.is_second()) {
        Move::NoPromotion(src, dst)
    } else {
        Move::Promotion(src, dst)
    };
    lemma_moves_from(cells, src, mv);
    mv
}

/// Carrying out a move listed for the piece on `src` takes the piece, as it
/// is or promoted as the move says, to another cell of the board, and leaves
/// `src` empty.
pub proof fn lemma_move_round_trip(cells: Seq<SidedPiece>, src: P, mv: Move)
    requires
        cells.len() == 81,
        on_board(src),
        piece_at(cells, src).valid(),
        moves_from(cells, src).contains(mv),
    ensures
        on_board(mv.target()),
        mv.target() != src,
        piece_at(cells_after(cells, mv), src).is_empty(),
        match mv {
            Move::NoPromotion(from, dst) => from == src && piece_at(cells_after(cells, mv), dst)
                == piece_at(cells, src),
            Move::Promotion(from, dst) => {
                &&& from == src
                &&& piece_at(cells, src).to_piece().has_promotion()
                &&& piece_at(cells_after(cells, mv), dst) == piece_at(cells, src).promoted()
                &&& piece_at(cells_after(cells, mv), dst).to_piece().0 == piece_at(
                    cells,
                    src,
                ).to_piece().0 + 8
                &&& piece_at(cells_after(cells, mv), dst).is_second() == piece_at(
                    cells,
                    src,
                ).is_second()
            },
            Move::FromHand(_, _) => false,
        },
{
    lemma_moves_from(cells, src, mv);
    lemma_cell_index(src);
    lemma_cell_index(mv.target());
}

} // verus!
