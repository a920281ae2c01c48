//! Drops that give check: where a piece from the first player's hand can be
//! put so that it attacks the king.

use crate::attack::{
    any_step_hit, in_check, lemma_scan_is_attack, ray_hit, ray_hit_at, step_hit, unit_dir,
};
use crate::common::{
    step_at, step_count, Move, SidedPiece, PIECE_BISHOP, PIECE_LANCE, PIECE_PROMOTED_BISHOP,
    PIECE_PROMOTED_ROOK, PIECE_ROOK, SECOND_KING,
};
use crate::movegen::clear_between;
use crate::pos::{fits_i32, D, P};
use crate::position::{
    cells_after, cells_wf, first_hand_after, king_at, king_pos, lemma_cell_index, lemma_king_pos,
    on_board, one_king, piece_at, put, sole_king_at,
};
use vstd::prelude::*;
use vstd::seq_lib::lemma_seq_concat_contains_all_elements;

verus! {

/// The cell from which step `j` of the first player's piece `id` leads to
/// `k`.
pub open spec fn step_source(k: P, id: int, j: int) -> P {
    k.shifted(step_at(id, j).flipped())
}

/// The drops of a first-player piece of identity `id` onto the empty cells
/// from which one of its first `n` single steps leads to `k`.
pub open spec fn step_drops(cells: Seq<SidedPiece>, k: P, id: int, n: int) -> Seq<Move>
    decreases n,
{
    if n <= 0 {
        Seq::empty()
    } else {
        let s = step_source(k, id, n - 1);
        step_drops(cells, k, id, n - 1) + (if on_board(s) && piece_at(cells, s).is_empty() {
            seq![Move::FromHand(s, SidedPiece(id as i8))]
        } else {
            Seq::empty()
        })
    }
}

/// The drops by a single step from `k`, for the first `n` kinds of piece
/// that the hand holds.
pub open spec fn held_step_drops(cells: Seq<SidedPiece>, hand: Seq<i8>, k: P, n: int) -> Seq<
    Move,
>
    decreases n,
{
    if n <= 0 {
        Seq::empty()
    } else {
        held_step_drops(cells, hand, k, n - 1) + (if hand[n - 1] > 0 {
            step_drops(cells, k, n - 1, step_count(n - 1))
        } else {
            Seq::empty()
        })
    }
}

/// The drops of `piece` onto the empty cells `i` or more steps of `dir` from
/// `pos`, nearest first, up to the first cell that is not empty or not on the
/// board.
pub open spec fn ray_drops(
    cells: Seq<SidedPiece>,
    pos: P,
    dir: D,
    piece: SidedPiece,
    i: int,
) -> Seq<Move>
    decreases 9 - i,
{
    if i >= 9 {
        Seq::empty()
    } else {
        let s = pos.along(dir, i);
        if on_board(s) && piece_at(cells, s).is_empty() {
            seq![Move::FromHand(s, piece)] + ray_drops(cells, pos, dir, piece, i + 1)
        } else {
            Seq::empty()
        }
    }
}

/// The drops of a held lance below `k`.
pub open spec fn lance_drops(cells: Seq<SidedPiece>, hand: Seq<i8>, k: P) -> Seq<Move> {
    if hand[PIECE_LANCE as int] > 0 {
        ray_drops(cells, k, D::of(1, 0), SidedPiece(PIECE_LANCE), 1)
    } else {
        Seq::empty()
    }
}

/// The drops of a held bishop on the diagonals through `k`.
pub open spec fn bishop_drops(cells: Seq<SidedPiece>, hand: Seq<i8>, k: P) -> Seq<Move> {
    let bishop = SidedPiece(PIECE_BISHOP);
    if hand[PIECE_BISHOP as int] > 0 {
        ray_drops(cells, k, D::of(-1, -1), bishop, 1) + ray_drops(
            cells,
            k,
            D::of(-1, 1),
            bishop,
            1,
        ) + ray_drops(cells, k, D::of(1, -1), bishop, 1) + ray_drops(
            cells,
            k,
            D::of(1, 1),
            bishop,
            1,
        )
    } else {
        Seq::empty()
    }
}

/// The drops of a held rook on the row and the column of `k`.
pub open spec fn rook_drops(cells: Seq<SidedPiece>, hand: Seq<i8>, k: P) -> Seq<Move> {
    let rook = SidedPiece(PIECE_ROOK);
    if hand[PIECE_ROOK as int] > 0 {
        ray_drops(cells, k, D::of(-1, 0), rook, 1) + ray_drops(cells, k, D::of(0, -1), rook, 1)
            + ray_drops(cells, k, D::of(0, 1), rook, 1) + ray_drops(
            cells,
            k,
            D::of(1, 0),
            rook,
            1,
        )
    } else {
        Seq::empty()
    }
}

/// The drops of pieces from the first player's hand that attack the cell
/// `k`: for each kind held, onto the empty cells a single step of that kind
/// from `k`; then a lance, a bishop and a rook, if held, onto the empty cells
/// along their lines through `k`.
pub open spec fn drop_checks(cells: Seq<SidedPiece>, hand: Seq<i8>, k: P) -> Seq<Move> {
    held_step_drops(cells, hand, k, 7) + lance_drops(cells, hand, k) + bishop_drops(
        cells,
        hand,
        k,
    ) + rook_drops(cells, hand, k)
}

/// Whether a walk of eight steps of `dir` from `pos` stays within what an
/// `i32` holds.
pub open spec fn walk_fits(pos: P, dir: D) -> bool {
    &&& fits_i32(dir.0 * 8)
    &&& fits_i32(dir.1 * 8)
    &&& fits_i32(pos.0 + dir.0)
    &&& fits_i32(pos.1 + dir.1)
    &&& fits_i32(pos.0 + dir.0 * 8)
    &&& fits_i32(pos.1 + dir.1 * 8)
}

/// Every step of a walk that fits stays within what an `i32` holds.
pub proof fn lemma_walk_fits(pos: P, dir: D, i: int)
    requires
        walk_fits(pos, dir),
        1 <= i <= 8,
    ensures
        fits_i32(dir.0 * i),
        fits_i32(dir.1 * i),
        fits_i32(pos.0 + dir.0 * i),
        fits_i32(pos.1 + dir.1 * i),
{
    lemma_scaled_between(dir.0 as int, i);
    lemma_scaled_between(dir.1 as int, i);
}

/// A number taken between one and eight times lies between the number and
/// eight times the number.
proof fn lemma_scaled_between(d: int, i: int)
    requires
        1 <= i <= 8,
    ensures
        d >= 0 ==> d <= d * i <= d * 8,
        d < 0 ==> d * 8 <= d * i <= d,
{
    assert(d >= 0 ==> d <= d * i <= d * 8) by (nonlinear_arith)
        requires
            1 <= i <= 8,
    ;
    assert(d < 0 ==> d * 8 <= d * i <= d) by (nonlinear_arith)
        requires
            1 <= i <= 8,
    ;
}

/// Whether `mv` drops a piece that the hand holds onto an empty cell of the
/// board.
pub open spec fn is_drop(cells: Seq<SidedPiece>, hand: Seq<i8>, mv: Move) -> bool {
    match mv {
        Move::FromHand(s, p) => {
            &&& on_board(s)
            &&& piece_at(cells, s).is_empty()
            &&& p.is_first()
            &&& p.to_piece().droppable()
            &&& hand[p.0 as int] > 0
        },
        _ => false,
    }
}

/// Carrying out a drop from the first player's hand puts the piece on its
/// cell, takes one piece of its kind out of the hand, and leaves every other
/// cell and every other count as it was.
pub proof fn lemma_drop_round_trip(cells: Seq<SidedPiece>, hand: Seq<i8>, mv: Move)
    requires
        cells.len() == 81,
        hand.len() == 7,
        is_drop(cells, hand, mv),
    ensures
        mv matches Move::FromHand(s, p) && {
            &&& piece_at(cells_after(cells, mv), s) == p
            &&& forall|q: P|
                on_board(q) && q != s ==> #[trigger] piece_at(cells_after(cells, mv), q)
                    == piece_at(cells, q)
            &&& first_hand_after(hand, mv)[p.0 as int] == hand[p.0 as int] - 1
            &&& forall|k: int|
                0 <= k < 7 && k != p.0 ==> #[trigger] first_hand_after(hand, mv)[k] == hand[k]
        },
{
    match mv {
        Move::FromHand(s, p) => {
            lemma_cell_index(s);
            assert forall|q: P| on_board(q) && q != s implies #[trigger] piece_at(
                cells_after(cells, mv),
                q,
            ) == piece_at(cells, q) by {
                lemma_cell_index(q);
            }
        },
        _ => {},
    }
}

/// Whether `mv` drops the first player's piece `id` onto the empty cell
/// from which step `j` of that piece leads to `k`.
pub open spec fn step_drop_at(cells: Seq<SidedPiece>, k: P, id: int, j: int, mv: Move) -> bool {
    let s = step_source(k, id, j);
    on_board(s) && piece_at(cells, s).is_empty() && mv == Move::FromHand(s, SidedPiece(id as i8))
}

/// Which drops `step_drops` lists.
pub proof fn lemma_step_drops(cells: Seq<SidedPiece>, k: P, id: int, n: int, mv: Move)
    ensures
        step_drops(cells, k, id, n).contains(mv) <==> exists|j: int|
            0 <= j < n && #[trigger] step_drop_at(cells, k, id, j, mv),
    decreases n,
{
    if n > 0 {
        lemma_step_drops(cells, k, id, n - 1, mv);
        let s = step_source(k, id, n - 1);
        let last = if on_board(s) && piece_at(cells, s).is_empty() {
            seq![Move::FromHand(s, SidedPiece(id as i8))]
        } else {
            Seq::empty()
        };
        lemma_seq_concat_contains_all_elements(step_drops(cells, k, id, n - 1), last, mv);
        if last.contains(mv) {
            assert(step_drop_at(cells, k, id, n - 1, mv));
        }
        if step_drop_at(cells, k, id, n - 1, mv) {
            assert(last[0] == mv);
        }
    }
}

/// Whether the hand holds a piece of kind `id` and `mv` drops one onto an
/// empty cell a single step of that kind from `k`.
pub open spec fn held_step_drop(
    cells: Seq<SidedPiece>,
    hand: Seq<i8>,
    k: P,
    id: int,
    mv: Move,
) -> bool {
    hand[id] > 0 && exists|j: int|
        0 <= j < step_count(id) && #[trigger] step_drop_at(cells, k, id, j, mv)
}

/// Which drops `held_step_drops` lists.
pub proof fn lemma_held_step_drops(
    cells: Seq<SidedPiece>,
    hand: Seq<i8>,
    k: P,
    n: int,
    mv: Move,
)
    ensures
        held_step_drops(cells, hand, k, n).contains(mv) <==> exists|id: int|
            0 <= id < n && #[trigger] held_step_drop(cells, hand, k, id, mv),
    decreases n,
{
    if n > 0 {
        lemma_held_step_drops(cells, hand, k, n - 1, mv);
        let last = if hand[n - 1] > 0 {
            step_drops(cells, k, n - 1, step_count(n - 1))
        } else {
            Seq::empty()
        };
        lemma_seq_concat_contains_all_elements(held_step_drops(cells, hand, k, n - 1), last, mv);
        lemma_step_drops(cells, k, n - 1, step_count(n - 1), mv);
        if last.contains(mv) {
            assert(held_step_drop(cells, hand, k, n - 1, mv));
        }
    }
}

/// Whether `mv` drops `piece` onto the empty cell `n` steps of `dir` from
/// `pos`, with only empty cells in between.
pub open spec fn ray_drop_at(
    cells: Seq<SidedPiece>,
    pos: P,
    dir: D,
    piece: SidedPiece,
    n: int,
    mv: Move,
) -> bool {
    &&& 1 <= n < 9
    &&& clear_between(cells, pos, dir, n)
    &&& on_board(pos.along(dir, n))
    &&& piece_at(cells, pos.along(dir, n)).is_empty()
    &&& mv == Move::FromHand(pos.along(dir, n), piece)
}

/// Whether `mv` drops `piece` onto an empty cell that is reached from `pos`
/// along `dir` over empty cells.
pub open spec fn ray_drop(
    cells: Seq<SidedPiece>,
    pos: P,
    dir: D,
    piece: SidedPiece,
    mv: Move,
) -> bool {
    exists|n: int| #[trigger] ray_drop_at(cells, pos, dir, piece, n, mv)
}

/// Which drops `ray_drops` lists from distance `i` on, where the cells
/// before are empty.
pub proof fn lemma_ray_drops(
    cells: Seq<SidedPiece>,
    pos: P,
    dir: D,
    piece: SidedPiece,
    i: int,
    mv: Move,
)
    requires
        1 <= i <= 9,
        clear_between(cells, pos, dir, i),
    ensures
        ray_drops(cells, pos, dir, piece, i).contains(mv) <==> exists|n: int|
            i <= n && #[trigger] ray_drop_at(cells, pos, dir, piece, n, mv),
    decreases 9 - i,
{
    let found = exists|n: int| i <= n && #[trigger] ray_drop_at(cells, pos, dir, piece, n, mv);
    if i < 9 {
        let s = pos.along(dir, i);
        if on_board(s) && piece_at(cells, s).is_empty() {
            let here = seq![Move::FromHand(s, piece)];
            let rest = ray_drops(cells, pos, dir, piece, i + 1);
            lemma_seq_concat_contains_all_elements(here, rest, mv);
            assert(clear_between(cells, pos, dir, i + 1));
            lemma_ray_drops(cells, pos, dir, piece, i + 1, mv);
            if here.contains(mv) {
                assert(ray_drop_at(cells, pos, dir, piece, i, mv));
            }
            if rest.contains(mv) {
                let n = choose|n: int|
                    i + 1 <= n && #[trigger] ray_drop_at(cells, pos, dir, piece, n, mv);
                assert(i <= n && ray_drop_at(cells, pos, dir, piece, n, mv));
            }
            if found {
                let n = choose|n: int|
                    i <= n && #[trigger] ray_drop_at(cells, pos, dir, piece, n, mv);
                if n == i {
                    assert(here[0] == mv);
                } else {
                    assert(i + 1 <= n && ray_drop_at(cells, pos, dir, piece, n, mv));
                }
            }
        } else {
            if found {
                let n = choose|n: int|
                    i <= n && #[trigger] ray_drop_at(cells, pos, dir, piece, n, mv);
                if n > i {
                    let near = pos.along(dir, i);
                    assert(on_board(near) && piece_at(cells, near).is_empty());
                }
            }
        }
    }
}

/// Walking along a direction of unit length from a cell of the board never
/// comes to the same cell twice.
pub proof fn lemma_along_distinct(k: P, dir: D, t: int, n: int)
    requires
        on_board(k),
        unit_dir(dir),
        0 <= t < 9,
        0 <= n < 9,
        t != n,
    ensures
        k.along(dir, t) != k.along(dir, n),
{
    lemma_unit_times(dir.0 as int, t);
    lemma_unit_times(dir.0 as int, n);
    lemma_unit_times(dir.1 as int, t);
    lemma_unit_times(dir.1 as int, n);
}

/// A number taken once, not at all, or once backwards.
proof fn lemma_unit_times(d: int, t: int)
    requires
        -1 <= d <= 1,
    ensures
        d * t == (if d == 1 {
            t
        } else if d == -1 {
            -t
        } else {
            0
        }),
{
    assert(d == 1 ==> d * t == t) by (nonlinear_arith);
    assert(d == -1 ==> d * t == -t) by (nonlinear_arith);
    assert(d == 0 ==> d * t == 0) by (nonlinear_arith);
}

/// A piece dropped onto an empty cell leaves the board with its one king,
/// where it was.
pub proof fn lemma_drop_keeps_king(cells: Seq<SidedPiece>, s: P, p: SidedPiece)
    requires
        cells_wf(cells),
        one_king(cells),
        on_board(s),
        piece_at(cells, s).is_empty(),
        p.valid(),
        p.0 != SECOND_KING,
    ensures
        cells_wf(put(cells, s, p)),
        one_king(put(cells, s, p)),
        king_pos(put(cells, s, p)) == king_pos(cells),
{
    let k = king_pos(cells);
    let after = put(cells, s, p);
    lemma_cell_index(s);
    lemma_cell_index(k);
    assert(king_at(after, k));
    assert forall|q: P| #[trigger] king_at(after, q) implies q == k by {
        lemma_cell_index(q);
        assert(king_at(cells, q));
    }
    assert(sole_king_at(after, k));
    lemma_king_pos(after, k);
}

/// After a drop of the first player's piece `p` onto the empty cell `s`, on
/// a board where no piece stood a single step of its own from `k`, such a
/// piece is found exactly when a single step of `p` leads from `s` to `k`.
pub proof fn lemma_steps_after_drop(cells: Seq<SidedPiece>, k: P, s: P, p: SidedPiece)
    requires
        cells_wf(cells),
        on_board(k),
        on_board(s),
        piece_at(cells, s).is_empty(),
        p.is_first(),
        !any_step_hit(cells, k),
    ensures
        any_step_hit(put(cells, s, p), k) <==> exists|j: int|
            0 <= j < step_count(p.0 as int) && #[trigger] step_source(k, p.0 as int, j) == s,
{
    let after = put(cells, s, p);
    lemma_cell_index(s);
    if any_step_hit(after, k) {
        let (id, j) = choose|id: int, j: int|
            0 <= id < 16 && 0 <= j < step_count(id) && #[trigger] step_hit(after, k, id, j);
        let from = step_source(k, id, j);
        lemma_cell_index(from);
        if from != s {
            assert(step_hit(cells, k, id, j));
        }
        assert(step_source(k, p.0 as int, j) == s);
    }
    if exists|j: int|
        0 <= j < step_count(p.0 as int) && #[trigger] step_source(k, p.0 as int, j) == s {
        let j = choose|j: int|
            0 <= j < step_count(p.0 as int) && #[trigger] step_source(k, p.0 as int, j) == s;
        assert(step_hit(after, k, p.0 as int, j));
    }
}

/// After a drop of the first player's piece `p` onto the empty cell `s`, on
/// a board where the first piece met from `k` along `dir` was neither `t1` nor
/// `t2`, it is one of them exactly when `p` is and `s` is reached from `k`
/// along `dir` over empty cells.
pub proof fn lemma_ray_after_drop(
    cells: Seq<SidedPiece>,
    k: P,
    dir: D,
    t1: SidedPiece,
    t2: SidedPiece,
    s: P,
    p: SidedPiece,
)
    requires
        cells_wf(cells),
        on_board(k),
        unit_dir(dir),
        on_board(s),
        piece_at(cells, s).is_empty(),
        p.is_first(),
        !ray_hit(cells, k, dir, t1, t2),
    ensures
        ray_hit(put(cells, s, p), k, dir, t1, t2) <==> (p == t1 || p == t2) && ray_drop(
            cells,
            k,
            dir,
            p,
            Move::FromHand(s, p),
        ),
{
    let after = put(cells, s, p);
    let mv = Move::FromHand(s, p);
    lemma_cell_index(s);
    if ray_hit(after, k, dir, t1, t2) {
        let n = choose|n: int| #[trigger] ray_hit_at(after, k, dir, t1, t2, n);
        let c = k.along(dir, n);
        lemma_cell_index(c);
        assert forall|t: int| 0 < t < n implies on_board(#[trigger] k.along(dir, t)) && piece_at(
            cells,
            k.along(dir, t),
        ).is_empty() by {
            lemma_cell_index(k.along(dir, t));
        }
        if c != s {
            assert(ray_hit_at(cells, k, dir, t1, t2, n));
        }
        assert(ray_drop_at(cells, k, dir, p, n, mv));
    }
    if (p == t1 || p == t2) && ray_drop(cells, k, dir, p, mv) {
        let n = choose|n: int| #[trigger] ray_drop_at(cells, k, dir, p, n, mv);
        assert forall|t: int| 0 < t < n implies on_board(#[trigger] k.along(dir, t)) && piece_at(
            after,
            k.along(dir, t),
        ).is_empty() by {
            lemma_along_distinct(k, dir, t, n);
            lemma_cell_index(k.along(dir, t));
        }
        assert(ray_hit_at(after, k, dir, t1, t2, n));
    }
}

/// Whether the piece that `mv` drops attacks the cell `k` from where it
/// lands: a single step of it leads to `k`, or it is a lance, a bishop or a
/// rook and lands on one of its lines through `k` with only empty cells in
/// between.
pub open spec fn drop_attacks(cells: Seq<SidedPiece>, k: P, mv: Move) -> bool {
    match mv {
        Move::FromHand(s, p) => {
            ||| exists|j: int|
                0 <= j < step_count(p.0 as int) && #[trigger] step_source(k, p.0 as int, j) == s
            ||| p.0 == PIECE_LANCE && ray_drop(cells, k, D::of(1, 0), p, mv)
            ||| p.0 == PIECE_BISHOP && on_rays(
                cells,
                k,
                D::of(-1, -1),
                D::of(-1, 1),
                D::of(1, -1),
                D::of(1, 1),
                p,
                mv,
            )
            ||| p.0 == PIECE_ROOK && on_rays(
                cells,
                k,
                D::of(-1, 0),
                D::of(0, -1),
                D::of(0, 1),
                D::of(1, 0),
                p,
                mv,
            )
        },
        _ => false,
    }
}

/// On a board whose king is not in check, a drop from the hand onto an
/// empty cell gives check exactly when the dropped piece attacks the king.
/// The board after the drop has its one king where it was.
pub proof fn lemma_drop_gives_check(cells: Seq<SidedPiece>, hand: Seq<i8>, mv: Move)
    requires
        cells_wf(cells),
        one_king(cells),
        !in_check(cells),
        is_drop(cells, hand, mv),
    ensures
        in_check(cells_after(cells, mv)) <==> drop_attacks(cells, king_pos(cells), mv),
        cells_wf(cells_after(cells, mv)),
        one_king(cells_after(cells, mv)),
        king_pos(cells_after(cells, mv)) == king_pos(cells),
{
    let k = king_pos(cells);
    let after = cells_after(cells, mv);
    match mv {
        Move::FromHand(s, p) => {
            lemma_drop_keeps_king(cells, s, p);
            lemma_cell_index(s);
            lemma_cell_index(k);
            lemma_scan_is_attack(cells, k);
            lemma_scan_is_attack(after, k);
            let lance = SidedPiece(PIECE_LANCE);
            let bishop = SidedPiece(PIECE_BISHOP);
            let horse = SidedPiece(PIECE_PROMOTED_BISHOP);
            let rook = SidedPiece(PIECE_ROOK);
            let dragon = SidedPiece(PIECE_PROMOTED_ROOK);
            lemma_steps_after_drop(cells, k, s, p);
            lemma_ray_after_drop(cells, k, D::of(1, 0), lance, lance, s, p);
            lemma_ray_after_drop(cells, k, D::of(-1, -1), bishop, horse, s, p);
            lemma_ray_after_drop(cells, k, D::of(-1, 1), bishop, horse, s, p);
            lemma_ray_after_drop(cells, k, D::of(1, -1), bishop, horse, s, p);
            lemma_ray_after_drop(cells, k, D::of(1, 1), bishop, horse, s, p);
            lemma_ray_after_drop(cells, k, D::of(-1, 0), rook, dragon, s, p);
            lemma_ray_after_drop(cells, k, D::of(0, -1), rook, dragon, s, p);
            lemma_ray_after_drop(cells, k, D::of(0, 1), rook, dragon, s, p);
            lemma_ray_after_drop(cells, k, D::of(1, 0), rook, dragon, s, p);
        },
        _ => {},
    }
}

/// Whether `mv` is one of the drops along a line from `k` that are listed
/// for `piece`.
proof fn lemma_ray_drops_from_start(
    cells: Seq<SidedPiece>,
    k: P,
    dir: D,
    piece: SidedPiece,
    mv: Move,
)
    ensures
        ray_drops(cells, k, dir, piece, 1).contains(mv) <==> ray_drop(cells, k, dir, piece, mv),
{
    lemma_ray_drops(cells, k, dir, piece, 1, mv);
    if ray_drop(cells, k, dir, piece, mv) {
        let n = choose|n: int| #[trigger] ray_drop_at(cells, k, dir, piece, n, mv);
        assert(1 <= n && ray_drop_at(cells, k, dir, piece, n, mv));
    }
}

/// On a board whose king is not in check, the drops listed as checks are
/// exactly the drops from the hand onto an empty cell after which the king is
/// in check.
pub proof fn lemma_drop_checks(cells: Seq<SidedPiece>, hand: Seq<i8>, mv: Move)
    requires
        cells_wf(cells),
        one_king(cells),
        !in_check(cells),
        hand.len() == 7,
    ensures
        drop_checks(cells, hand, king_pos(cells)).contains(mv) <==> is_drop(cells, hand, mv)
            && in_check(cells_after(cells, mv)),
{
    let k = king_pos(cells);
    let lance = SidedPiece(PIECE_LANCE);
    let bishop = SidedPiece(PIECE_BISHOP);
    let rook = SidedPiece(PIECE_ROOK);
    let a = held_step_drops(cells, hand, k, 7);
    let b = lance_drops(cells, hand, k);
    let c = bishop_drops(cells, hand, k);
    let d = rook_drops(cells, hand, k);
    lemma_seq_concat_contains_all_elements(a, b, mv);
    lemma_seq_concat_contains_all_elements(a + b, c, mv);
    lemma_seq_concat_contains_all_elements(a + b + c, d, mv);
    lemma_held_step_drops(cells, hand, k, 7, mv);
    lemma_ray_drops_from_start(cells, k, D::of(1, 0), lance, mv);
    lemma_bishop_drops(cells, hand, k, mv);
    lemma_rook_drops(cells, hand, k, mv);
    if is_drop(cells, hand, mv) {
        lemma_drop_gives_check(cells, hand, mv);
    }
    match mv {
        Move::FromHand(s, p) => {
            if a.contains(mv) {
                let id = choose|id: int|
                    0 <= id < 7 && #[trigger] held_step_drop(cells, hand, k, id, mv);
                let j = choose|j: int|
                    0 <= j < step_count(id) && #[trigger] step_drop_at(cells, k, id, j, mv);
                assert(step_source(k, p.0 as int, j) == s);
                assert(is_drop(cells, hand, mv));
                assert(drop_attacks(cells, k, mv));
            }
            if b.contains(mv) {
                let n = choose|n: int| #[trigger] ray_drop_at(cells, k, D::of(1, 0), lance, n, mv);
                assert(is_drop(cells, hand, mv));
            }
            if is_drop(cells, hand, mv) && drop_attacks(cells, k, mv) {
                if exists|j: int|
                    0 <= j < step_count(p.0 as int) && #[trigger] step_source(k, p.0 as int, j)
                        == s {
                    let j = choose|j: int|
                        0 <= j < step_count(p.0 as int) && #[trigger] step_source(
                            k,
                            p.0 as int,
                            j,
                        ) == s;
                    assert(step_drop_at(cells, k, p.0 as int, j, mv));
                    assert(held_step_drop(cells, hand, k, p.0 as int, mv));
                }
            }
        },
        _ => {
            if a.contains(mv) {
                let id = choose|id: int|
                    0 <= id < 7 && #[trigger] held_step_drop(cells, hand, k, id, mv);
            }
            if b.contains(mv) {
                let n = choose|n: int| #[trigger] ray_drop_at(cells, k, D::of(1, 0), lance, n, mv);
            }
        },
    }
}

/// Whether `mv` drops `piece` onto a cell reached from `k` over empty cells
/// along one of four directions.
pub open spec fn on_rays(
    cells: Seq<SidedPiece>,
    k: P,
    d1: D,
    d2: D,
    d3: D,
    d4: D,
    piece: SidedPiece,
    mv: Move,
) -> bool {
    ray_drop(cells, k, d1, piece, mv) || ray_drop(cells, k, d2, piece, mv) || ray_drop(
        cells,
        k,
        d3,
        piece,
        mv,
    ) || ray_drop(cells, k, d4, piece, mv)
}

/// Which drops are listed for a held bishop.
proof fn lemma_bishop_drops(cells: Seq<SidedPiece>, hand: Seq<i8>, k: P, mv: Move)
    ensures
        bishop_drops(cells, hand, k).contains(mv) <==> hand[PIECE_BISHOP as int] > 0 && on_rays(
            cells,
            k,
            D::of(-1, -1),
            D::of(-1, 1),
            D::of(1, -1),
            D::of(1, 1),
            SidedPiece(PIECE_BISHOP),
            mv,
        ),
{
    let bishop = SidedPiece(PIECE_BISHOP);
    let d1 = D::of(-1, -1);
    let d2 = D::of(-1, 1);
    let d3 = D::of(1, -1);
    let d4 = D::of(1, 1);
    lemma_four_rays(cells, k, d1, d2, d3, d4, bishop, mv);
}

/// Which drops are listed for a held rook.
proof fn lemma_rook_drops(cells: Seq<SidedPiece>, hand: Seq<i8>, k: P, mv: Move)
    ensures
        rook_drops(cells, hand, k).contains(mv) <==> hand[PIECE_ROOK as int] > 0 && on_rays(
            cells,
            k,
            D::of(-1, 0),
            D::of(0, -1),
            D::of(0, 1),
            D::of(1, 0),
            SidedPiece(PIECE_ROOK),
            mv,
        ),
{
    let rook = SidedPiece(PIECE_ROOK);
    let d1 = D::of(-1, 0);
    let d2 = D::of(0, -1);
    let d3 = D::of(0, 1);
    let d4 = D::of(1, 0);
    lemma_four_rays(cells, k, d1, d2, d3, d4, rook, mv);
}

/// Which drops are listed along four lines from `k`.
proof fn lemma_four_rays(
    cells: Seq<SidedPiece>,
    k: P,
    d1: D,
    d2: D,
    d3: D,
    d4: D,
    piece: SidedPiece,
    mv: Move,
)
    ensures
        (ray_drops(cells, k, d1, piece, 1) + ray_drops(cells, k, d2, piece, 1) + ray_drops(
            cells,
            k,
            d3,
            piece,
            1,
        ) + ray_drops(cells, k, d4, piece, 1)).contains(mv) <==> on_rays(
            cells,
            k,
            d1,
            d2,
            d3,
            d4,
            piece,
            mv,
        ),
{
    let r1 = ray_drops(cells, k, d1, piece, 1);
    let r2 = ray_drops(cells, k, d2, piece, 1);
    let r3 = ray_drops(cells, k, d3, piece, 1);
    let r4 = ray_drops(cells, k, d4, piece, 1);
    lemma_seq_concat_contains_all_elements(r1, r2, mv);
    lemma_seq_concat_contains_all_elements(r1 + r2, r3, mv);
    lemma_seq_concat_contains_all_elements(r1 + r2 + r3, r4, mv);
    lemma_ray_drops_from_start(cells, k, d1, piece, mv);
    lemma_ray_drops_from_start(cells, k, d2, piece, mv);
    lemma_ray_drops_from_start(cells, k, d3, piece, mv);
    lemma_ray_drops_from_start(cells, k, d4, piece, mv);
    if ray_drop(cells, k, d1, piece, mv) {
        let n = choose|n: int| #[trigger] ray_drop_at(cells, k, d1, piece, n, mv);
    }
    if ray_drop(cells, k, d2, piece, mv) {
        let n = choose|n: int| #[trigger] ray_drop_at(cells, k, d2, piece, n, mv);
    }
    if ray_drop(cells, k, d3, piece, mv) {
        let n = choose|n: int| #[trigger] ray_drop_at(cells, k, d3, piece, n, mv);
    }
    if ray_drop(cells, k, d4, piece, mv) {
        let n = choose|n: int| #[trigger] ray_drop_at(cells, k, d4, piece, n, mv);
    }
}

} // verus!
