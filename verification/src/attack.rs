//! Check: when the second player's king is attacked, stated from the
//! attacker's side, and the scan from the king's side that decides it.

use crate::common::{
    lemma_step_table, lemma_steps_mirrored, step_at, step_count, Move, Piece, SidedPiece,
    PIECE_BISHOP, PIECE_LANCE, PIECE_PROMOTED_BISHOP, PIECE_PROMOTED_ROOK, PIECE_ROOK,
};
use crate::movegen::{
    clear_between, diagonal, lemma_moves_from, lemma_reached_cell_has_move, moves_from, reaches,
    slides_along, slides_by, slides_diagonally, slides_to, step_target, steps_to,
};
use crate::pos::{D, P};
use crate::position::{king_pos, on_board, piece_at};
use vstd::prelude::*;

verus! {

/// Whether a piece of the first player attacks the cell `k`.
pub open spec fn attacked(cells: Seq<SidedPiece>, k: P) -> bool {
    exists|src: P| piece_at(cells, src).is_first() && #[trigger] reaches(cells, src, k)
}

/// Whether the second player's king is in check: a piece of the first player
/// can move onto its cell.
pub open spec fn in_check(cells: Seq<SidedPiece>) -> bool {
    attacked(cells, king_pos(cells))
}

/// Whether a first-player piece of identity `id` stands where its step `j`
/// leads to `k`. Seen from `k`, it stands at the step mirrored top to
/// bottom.
pub open spec fn step_hit(cells: Seq<SidedPiece>, k: P, id: int, j: int) -> bool {
    let s = k.shifted(step_at(id, j).flipped());
    on_board(s) && piece_at(cells, s) == SidedPiece(id as i8)
}

/// Whether some first-player piece stands a single step of its own from `k`.
pub open spec fn any_step_hit(cells: Seq<SidedPiece>, k: P) -> bool {
    exists|id: int, j: int|
        0 <= id < 16 && 0 <= j < step_count(id) && #[trigger] step_hit(cells, k, id, j)
}

/// Whether the cell `n` steps of `dir` from `k` holds `t1` or `t2`, with
/// nothing in between.
pub open spec fn ray_hit_at(
    cells: Seq<SidedPiece>,
    k: P,
    dir: D,
    t1: SidedPiece,
    t2: SidedPiece,
    n: int,
) -> bool {
    &&& 1 <= n < 9
    &&& on_board(k.along(dir, n))
    &&& (piece_at(cells, k.along(dir, n)) == t1 || piece_at(cells, k.along(dir, n)) == t2)
    &&& clear_between(cells, k, dir, n)
}

/// Whether the first piece met from `k` along `dir` is `t1` or `t2`.
pub open spec fn ray_hit(
    cells: Seq<SidedPiece>,
    k: P,
    dir: D,
    t1: SidedPiece,
    t2: SidedPiece,
) -> bool {
    exists|n: int| #[trigger] ray_hit_at(cells, k, dir, t1, t2, n)
}

/// What the scan from the cell `k` finds: a first-player piece a single
/// step of its own away, a lance below, a bishop or promoted bishop on a
/// diagonal, or a rook or promoted rook on the row or the column.
pub open spec fn scan_finds(cells: Seq<SidedPiece>, k: P) -> bool {
    let lance = SidedPiece(PIECE_LANCE);
    let bishop = SidedPiece(PIECE_BISHOP);
    let horse = SidedPiece(PIECE_PROMOTED_BISHOP);
    let rook = SidedPiece(PIECE_ROOK);
    let dragon = SidedPiece(PIECE_PROMOTED_ROOK);
    ||| any_step_hit(cells, k)
    ||| ray_hit(cells, k, D::of(1, 0), lance, lance)
    ||| ray_hit(cells, k, D::of(-1, -1), bishop, horse)
    ||| ray_hit(cells, k, D::of(-1, 1), bishop, horse)
    ||| ray_hit(cells, k, D::of(1, -1), bishop, horse)
    ||| ray_hit(cells, k, D::of(1, 1), bishop, horse)
    ||| ray_hit(cells, k, D::of(-1, 0), rook, dragon)
    ||| ray_hit(cells, k, D::of(0, -1), rook, dragon)
    ||| ray_hit(cells, k, D::of(0, 1), rook, dragon)
    ||| ray_hit(cells, k, D::of(1, 0), rook, dragon)
}

/// Whether `dir` has no component longer than one cell and is not zero.
pub open spec fn unit_dir(dir: D) -> bool {
    -1 <= dir.0 <= 1 && -1 <= dir.1 <= 1 && dir != D(0, 0)
}

/// The displacement turned round.
pub open spec fn reversed(dir: D) -> D {
    D::of(-dir.0, -dir.1)
}

/// A clear line can be walked from either end: if `b` lies `n` cells from
/// `a` along `dir` with nothing in between, then `a` lies `n` cells from `b`
/// along the reversed direction with nothing in between.
pub proof fn lemma_line_reversed(cells: Seq<SidedPiece>, a: P, dir: D, n: int, b: P)
    requires
        on_board(a),
        unit_dir(dir),
        slides_by(cells, a, dir, n, b),
    ensures
        slides_by(cells, b, reversed(dir), n, a),
{
    let rev = reversed(dir);
    assert(-8 <= dir.0 * n <= 8 && -8 <= dir.1 * n <= 8) by (nonlinear_arith)
        requires
            -1 <= dir.0 <= 1,
            -1 <= dir.1 <= 1,
            1 <= n < 9,
    ;
    assert(rev.0 * n == -(dir.0 * n) && rev.1 * n == -(dir.1 * n)) by (nonlinear_arith)
        requires
            rev.0 == -dir.0,
            rev.1 == -dir.1,
    ;
    assert(b.along(rev, n) == a);
    assert forall|t: int| 0 < t < n implies on_board(#[trigger] b.along(rev, t)) && piece_at(
        cells,
        b.along(rev, t),
    ).is_empty() by {
        let u = n - t;
        assert(dir.0 * u == dir.0 * n - dir.0 * t && dir.1 * u == dir.1 * n - dir.1 * t)
            by (nonlinear_arith)
            requires
                u == n - t,
        ;
        assert(rev.0 * t == -(dir.0 * t) && rev.1 * t == -(dir.1 * t)) by (nonlinear_arith)
            requires
                rev.0 == -dir.0,
                rev.1 == -dir.1,
        ;
        assert(-8 <= dir.0 * t <= 8 && -8 <= dir.1 * t <= 8) by (nonlinear_arith)
            requires
                -1 <= dir.0 <= 1,
                -1 <= dir.1 <= 1,
                0 < t < 9,
        ;
        assert(-8 <= dir.0 * u <= 8 && -8 <= dir.1 * u <= 8) by (nonlinear_arith)
            requires
                -1 <= dir.0 <= 1,
                -1 <= dir.1 <= 1,
                0 < u < 9,
        ;
        assert(b.along(rev, t) == a.along(dir, u));
    }
}

/// A first-player piece found a single step of its own from `k` attacks
/// `k`.
proof fn lemma_step_hit_attacks(cells: Seq<SidedPiece>, k: P, id: int, j: int)
    requires
        on_board(k),
        !piece_at(cells, k).is_first(),
        0 <= id < 16,
        0 <= j < step_count(id),
        step_hit(cells, k, id, j),
    ensures
        attacked(cells, k),
{
    let s = k.shifted(step_at(id, j).flipped());
    let piece = Piece(id as i8);
    let m = lemma_steps_mirrored(id, j);
    lemma_step_table(id, j);
    lemma_step_table(id, m);
    assert(step_target(piece, false, s, m) == k);
    assert(reaches(cells, s, k));
}

/// A sliding first-player piece found from `k` along `dir`, which slides
/// along the reversed direction, attacks `k`.
proof fn lemma_ray_hit_attacks(
    cells: Seq<SidedPiece>,
    k: P,
    dir: D,
    t1: SidedPiece,
    t2: SidedPiece,
)
    requires
        on_board(k),
        !piece_at(cells, k).is_first(),
        unit_dir(dir),
        t1.is_first(),
        t2.is_first(),
        slides_along(t1.to_piece(), false, reversed(dir)),
        slides_along(t2.to_piece(), false, reversed(dir)),
        ray_hit(cells, k, dir, t1, t2),
    ensures
        attacked(cells, k),
{
    let n = choose|n: int| #[trigger] ray_hit_at(cells, k, dir, t1, t2, n);
    let s = k.along(dir, n);
    lemma_line_reversed(cells, k, dir, n, s);
    let sided = piece_at(cells, s);
    assert(slides_by(cells, s, reversed(dir), n, k));
    assert(slides_to(cells, sided.to_piece(), false, s, k));
    assert(reaches(cells, s, k));
}

/// The scan from the king's side decides whether a cell is attacked: it
/// finds a piece exactly when some first-player piece can move onto the cell.
pub proof fn lemma_scan_is_attack(cells: Seq<SidedPiece>, k: P)
    requires
        on_board(k),
        !piece_at(cells, k).is_first(),
    ensures
        scan_finds(cells, k) == attacked(cells, k),
{
    let lance = SidedPiece(PIECE_LANCE);
    let bishop = SidedPiece(PIECE_BISHOP);
    let horse = SidedPiece(PIECE_PROMOTED_BISHOP);
    let rook = SidedPiece(PIECE_ROOK);
    let dragon = SidedPiece(PIECE_PROMOTED_ROOK);
    if any_step_hit(cells, k) {
        let (id, j) = choose|id: int, j: int|
            0 <= id < 16 && 0 <= j < step_count(id) && #[trigger] step_hit(cells, k, id, j);
        lemma_step_hit_attacks(cells, k, id, j);
    }
    if ray_hit(cells, k, D::of(1, 0), lance, lance) {
        lemma_ray_hit_attacks(cells, k, D::of(1, 0), lance, lance);
    }
    if ray_hit(cells, k, D::of(-1, -1), bishop, horse) {
        lemma_ray_hit_attacks(cells, k, D::of(-1, -1), bishop, horse);
    }
    if ray_hit(cells, k, D::of(-1, 1), bishop, horse) {
        lemma_ray_hit_attacks(cells, k, D::of(-1, 1), bishop, horse);
    }
    if ray_hit(cells, k, D::of(1, -1), bishop, horse) {
        lemma_ray_hit_attacks(cells, k, D::of(1, -1), bishop, horse);
    }
    if ray_hit(cells, k, D::of(1, 1), bishop, horse) {
        lemma_ray_hit_attacks(cells, k, D::of(1, 1), bishop, horse);
    }
    if ray_hit(cells, k, D::of(-1, 0), rook, dragon) {
        lemma_ray_hit_attacks(cells, k, D::of(-1, 0), rook, dragon);
    }
    if ray_hit(cells, k, D::of(0, -1), rook, dragon) {
        lemma_ray_hit_attacks(cells, k, D::of(0, -1), rook, dragon);
    }
    if ray_hit(cells, k, D::of(0, 1), rook, dragon) {
        lemma_ray_hit_attacks(cells, k, D::of(0, 1), rook, dragon);
    }
    if ray_hit(cells, k, D::of(1, 0), rook, dragon) {
        lemma_ray_hit_attacks(cells, k, D::of(1, 0), rook, dragon);
    }
    if attacked(cells, k) {
        let src = choose|src: P|
            piece_at(cells, src).is_first() && #[trigger] reaches(cells, src, k);
        lemma_attacker_found(cells, src, k);
    }
}

/// A first-player piece that can move onto `k` is found by the scan from
/// `k`.
proof fn lemma_attacker_found(cells: Seq<SidedPiece>, src: P, k: P)
    requires
        on_board(k),
        piece_at(cells, src).is_first(),
        reaches(cells, src, k),
    ensures
        scan_finds(cells, k),
{
    let sided = piece_at(cells, src);
    let piece = sided.to_piece();
    let id = piece.0 as int;
    if steps_to(piece, false, src, k) {
        let j = choose|j: int|
            0 <= j < step_count(id) && #[trigger] step_target(piece, false, src, j) == k;
        let m = lemma_steps_mirrored(id, j);
        lemma_step_table(id, j);
        lemma_step_table(id, m);
        assert(k.shifted(step_at(id, m).flipped()) == src);
        assert(step_hit(cells, k, id, m));
    } else {
        let (dir, n) = choose|dir: D, n: int|
            slides_along(piece, false, dir) && #[trigger] slides_by(cells, src, dir, n, k);
        lemma_line_reversed(cells, src, dir, n, k);
        let rev = reversed(dir);
        assert(ray_hit_at(cells, k, rev, sided, sided, n));
        if piece.0 == PIECE_LANCE {
            assert(rev == D::of(1, 0));
            let lance = SidedPiece(PIECE_LANCE);
            assert(ray_hit_at(cells, k, D::of(1, 0), lance, lance, n));
        } else if slides_diagonally(piece) {
            let bishop = SidedPiece(PIECE_BISHOP);
            let horse = SidedPiece(PIECE_PROMOTED_BISHOP);
            assert(ray_hit_at(cells, k, rev, bishop, horse, n));
            assert(rev == D::of(-1, -1) || rev == D::of(-1, 1) || rev == D::of(1, -1) || rev
                == D::of(1, 1));
        } else {
            let rook = SidedPiece(PIECE_ROOK);
            let dragon = SidedPiece(PIECE_PROMOTED_ROOK);
            assert(ray_hit_at(cells, k, rev, rook, dragon, n));
            assert(rev == D::of(-1, 0) || rev == D::of(0, -1) || rev == D::of(0, 1) || rev
                == D::of(1, 0));
        }
    }
}

/// Whether `mv` is listed for a piece of the first player and puts it on
/// the cell `k`.
pub open spec fn captures_on(cells: Seq<SidedPiece>, src: P, mv: Move, k: P) -> bool {
    &&& on_board(src)
    &&& piece_at(cells, src).is_first()
    &&& moves_from(cells, src).contains(mv)
    &&& mv.target() == k
}

/// The king is in check exactly when one of the moves listed for the first
/// player's pieces would put a piece on the king's cell.
pub proof fn lemma_check_is_threat_of_capture(cells: Seq<SidedPiece>)
    ensures
        in_check(cells) <==> exists|src: P, mv: Move|
            #[trigger] captures_on(cells, src, mv, king_pos(cells)),
{
    let k = king_pos(cells);
    if in_check(cells) {
        let src = choose|src: P|
            piece_at(cells, src).is_first() && #[trigger] reaches(cells, src, k);
        let mv = lemma_reached_cell_has_move(cells, src, k);
        assert(captures_on(cells, src, mv, k));
    }
    if exists|src: P, mv: Move| #[trigger] captures_on(cells, src, mv, k) {
        let (src, mv) = choose|src: P, mv: Move| #[trigger] captures_on(cells, src, mv, k);
        lemma_moves_from(cells, src, mv);
        assert(reaches(cells, src, k));
    }
}

} // verus!
