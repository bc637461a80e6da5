//! The sole-candidate strategy: a solved cell's digit can no longer appear
//! anywhere else in its row, its column or its 3x3 block, so it is
//! eliminated from the candidate set of every peer cell.

use vstd::prelude::*;

use crate::board::{
    cand_shrinks, lemma_ops_refl, lemma_ops_trans, newly_solved_queued, unchanged_except,
    values_monotonic, wl_after_push, wl_superset, Board,
};
use crate::coordinate::{cell_in_range, Coordinate};
use crate::solution::{consistent_with, valid_solution};
use crate::sudoku_cell_bitmask::{digit_of, lemma_clear_digit, lemma_clear_keeps_other};
use crate::sudoku_cell_bitmask::{lemma_digit_not_in_cleared, lemma_digit_of_range};
use crate::sudoku_cell_bitmask::lemma_mask_overlap_same_digit;
use crate::sudoku_cell_bitmask::{lemma_mask_shrink_keeps_exclusion, mask_of};

verus! {

/// Whether the cells `(x, y)` and `(cx, cy)` share a unit: the same row,
/// the same column, or the same 3x3 block.
pub open spec fn in_same_unit(x: int, y: int, cx: int, cy: int) -> bool {
    cx == x || cy == y || (cx / 3 == x / 3 && cy / 3 == y / 3)
}

/// The cell at `(cx, cy)` is solved, or its candidate set no longer permits
/// the digit `d`: what one elimination pass leaves behind.
pub open spec fn solved_or_excludes(b: Board, cx: int, cy: int, d: u8) -> bool {
    b.value_at(cx, cy) != 0 || b.cand_at(cx, cy) & mask_of(d) == 0
}

/// Every cell of the units of `(x, y)`, other than `(x, y)` itself, is
/// solved or no longer permits `d`.
pub open spec fn unit_excluded(b: Board, x: int, y: int, d: u8) -> bool {
    forall|cx: int, cy: int|
        #![trigger solved_or_excludes(b, cx, cy, d)]
        cell_in_range(cx, cy) && in_same_unit(x, y, cx, cy) && !(cx == x && cy == y)
            ==> solved_or_excludes(b, cx, cy, d)
}

/// The exact result of eliminating `d` once from the cell at `(cx, cy)`,
/// relating a later state `b` to a base state `b0`: a cell solved in `b0`
/// is untouched; an unsolved cell's set loses the digit `d`, and the cell
/// is assigned whatever single digit that narrowed set determines (0, that
/// is still unsolved, when several digits or none are left).
pub open spec fn peer_eliminated(b0: Board, b: Board, cx: int, cy: int, d: u8) -> bool {
    if b0.value_at(cx, cy) != 0 {
        b.value_at(cx, cy) == b0.value_at(cx, cy) && b.cand_at(cx, cy) == b0.cand_at(cx, cy)
    } else {
        b.cand_at(cx, cy) == (b0.cand_at(cx, cy) & !mask_of(d)) && b.value_at(cx, cy) == digit_of(
            b0.cand_at(cx, cy) & !mask_of(d),
        )
    }
}

/// One elimination step: the digit held at the solved source cell is
/// removed from the candidate set of the candidate cell. A cell never
/// eliminates against itself, and a solved candidate cell is left alone;
/// an unsolved candidate cell ends exactly as `peer_eliminated` states,
/// with the bookkeeping of `assign` (count, value, one deduplicated queue
/// entry) whenever the narrowed set determines a digit.
pub fn sole_candidate_comparison(
    board: &mut Board,
    solved_x: usize,
    solved_y: usize,
    candidate_x: usize,
    candidate_y: usize,
)
    requires
        old(board).wf(),
        solved_x < 9,
        solved_y < 9,
        candidate_x < 9,
        candidate_y < 9,
        old(board).value_at(solved_x as int, solved_y as int) != 0,
    ensures
        final(board).wf(),
        values_monotonic(*old(board), *final(board)),
        cand_shrinks(*old(board), *final(board)),
        wl_superset(*old(board), *final(board)),
        newly_solved_queued(*old(board), *final(board)),
        final(board).measure() <= old(board).measure(),
        unchanged_except(*old(board), *final(board), candidate_x as int, candidate_y as int),
        solved_x == candidate_x && solved_y == candidate_y ==> *final(board) == *old(board),
        old(board).value_at(candidate_x as int, candidate_y as int) != 0 ==> *final(board) == *old(
            board,
        ),
        !(solved_x == candidate_x && solved_y == candidate_y) && old(board).value_at(
            candidate_x as int,
            candidate_y as int,
        ) == 0 ==> {
            let d = old(board).value_at(solved_x as int, solved_y as int);
            let m = old(board).cand_at(candidate_x as int, candidate_y as int);
            let nm = m & !mask_of(d);
            &&& (digit_of(nm) == 0 && nm == m ==> *final(board) == *old(board))
            &&& (digit_of(nm) != 0 || nm != m ==> {
                &&& final(board).cand_at(candidate_x as int, candidate_y as int) == nm
                &&& final(board).value_at(candidate_x as int, candidate_y as int) == digit_of(nm)
                &&& final(board).count() == old(board).count() + (if digit_of(nm) != 0 {
                    1int
                } else {
                    0int
                })
                &&& wl_after_push(
                    old(board).worklist(),
                    final(board).worklist(),
                    Coordinate { x: candidate_x, y: candidate_y },
                )
            })
        },
        peer_eliminated(
            *old(board),
            *final(board),
            candidate_x as int,
            candidate_y as int,
            old(board).value_at(solved_x as int, solved_y as int),
        ) || (solved_x == candidate_x && solved_y == candidate_y),
        in_same_unit(
            solved_x as int,
            solved_y as int,
            candidate_x as int,
            candidate_y as int,
        ) ==> forall|s: spec_fn(int, int) -> u8|
            #![trigger consistent_with(s, *old(board))]
            valid_solution(s) && consistent_with(s, *old(board)) ==> consistent_with(
                s,
                *final(board),
            ),
        solved_or_excludes(
            *final(board),
            candidate_x as int,
            candidate_y as int,
            old(board).value_at(solved_x as int, solved_y as int),
        ),
{
    if solved_x == candidate_x && solved_y == candidate_y {
        proof {
            lemma_ops_refl(*board);
        }
        return ;
    }
    if board.get_value(candidate_x, candidate_y) > 0 {
        proof {
            lemma_ops_refl(*board);
        }
        return ;
    }
    proof {
        board.lemma_solved_cell_singleton(solved_x as int, solved_y as int);
        board.lemma_cand_wf(candidate_x as int, candidate_y as int);
    }
    let d = board.get_value(solved_x, solved_y);
    board.eliminate(Coordinate { x: candidate_x, y: candidate_y }, d);
    proof {
        let dd = old(board).value_at(solved_x as int, solved_y as int);
        let m = old(board).cand_at(candidate_x as int, candidate_y as int);
        let nm = m & !mask_of(dd);
        lemma_clear_digit(m, dd);
        if in_same_unit(solved_x as int, solved_y as int, candidate_x as int, candidate_y as int) {
            assert forall|s: spec_fn(int, int) -> u8|
                valid_solution(s) && consistent_with(s, *old(board)) implies consistent_with(
                s,
                *board,
            ) by {
                let st = s(candidate_x as int, candidate_y as int);
                assert(s(solved_x as int, solved_y as int) == dd);
                assert(st != dd);
                assert forall|x2: int, y2: int| cell_in_range(x2, y2) implies (1 <= #[trigger] s(
                    x2,
                    y2,
                ) <= 9) && (board.value_at(x2, y2) != 0 ==> s(x2, y2) == board.value_at(x2, y2))
                    && (board.cand_at(x2, y2) & mask_of(s(x2, y2)) != 0) by {
                    if x2 == candidate_x as int && y2 == candidate_y as int {
                        if digit_of(nm) == 0 && nm == m {
                        } else {
                            lemma_clear_keeps_other(m, st, dd);
                            if digit_of(nm) != 0 {
                                lemma_digit_of_range(nm);
                                lemma_mask_overlap_same_digit(digit_of(nm), st);
                            }
                        }
                    } else {
                        assert(board.value_at(x2, y2) == old(board).value_at(x2, y2));
                        assert(board.cand_at(x2, y2) == old(board).cand_at(x2, y2));
                    }
                }
            }
        }
    }
}

/// Propagates a solved cell outward: eliminates its digit from every other
/// cell of its row, its column and its 3x3 block, exactly once per peer. A
/// no-op when the cell at `(x, y)` is not solved, since an unsolved cell
/// constrains nothing yet. When it is solved with digit `d`: every cell of
/// its units ends as `peer_eliminated` states (so no unsolved peer permits
/// `d` any more), nothing outside its units changes, and no cell gains the
/// digit `d`.
pub fn solve(board: &mut Board, x: usize, y: usize)
    requires
        old(board).wf(),
        x < 9,
        y < 9,
    ensures
        final(board).wf(),
        values_monotonic(*old(board), *final(board)),
        cand_shrinks(*old(board), *final(board)),
        wl_superset(*old(board), *final(board)),
        newly_solved_queued(*old(board), *final(board)),
        final(board).measure() <= old(board).measure(),
        forall|s: spec_fn(int, int) -> u8|
            #![trigger consistent_with(s, *old(board))]
            valid_solution(s) && consistent_with(s, *old(board)) ==> consistent_with(
                s,
                *final(board),
            ),
        old(board).value_at(x as int, y as int) == 0 ==> *final(board) == *old(board),
        old(board).value_at(x as int, y as int) != 0 ==> {
            let d = old(board).value_at(x as int, y as int);
            &&& forall|cx: int, cy: int|
                #![trigger peer_eliminated(*old(board), *final(board), cx, cy, d)]
                cell_in_range(cx, cy) && in_same_unit(x as int, y as int, cx, cy)
                    ==> peer_eliminated(*old(board), *final(board), cx, cy, d)
            &&& forall|cx: int, cy: int|
                #![trigger final(board).value_at(cx, cy)]
                #![trigger final(board).cand_at(cx, cy)]
                cell_in_range(cx, cy) && !in_same_unit(x as int, y as int, cx, cy) ==> final(board).value_at(cx, cy) == old(board).value_at(cx, cy) && final(board).cand_at(cx, cy)
                    == old(board).cand_at(cx, cy)
            &&& forall|cx: int, cy: int|
                #![trigger final(board).value_at(cx, cy)]
                cell_in_range(cx, cy) && old(board).value_at(cx, cy) == 0 ==> final(board).value_at(
                    cx,
                    cy,
                ) != d
            &&& unit_excluded(*final(board), x as int, y as int, d)
        },
{
    let ghost b0 = *board;
    let ghost d = b0.value_at(x as int, y as int);
    if board.get_value(x, y) != 0 {
        proof {
            lemma_ops_refl(b0);
            b0.lemma_solved_cell_singleton(x as int, y as int);
        }
        let mut i: usize = 0;
        while i < 9
            invariant
                board.wf(),
                b0.wf(),
                x < 9,
                y < 9,
                i <= 9,
                1 <= d <= 9,
                d == b0.value_at(x as int, y as int),
                values_monotonic(b0, *board),
                cand_shrinks(b0, *board),
                wl_superset(b0, *board),
                newly_solved_queued(b0, *board),
                board.measure() <= b0.measure(),
                board.value_at(x as int, y as int) == d,
                board.cand_at(x as int, y as int) == b0.cand_at(x as int, y as int),
                forall|s: spec_fn(int, int) -> u8|
                    #![trigger consistent_with(s, b0)]
                    valid_solution(s) && consistent_with(s, b0) ==> consistent_with(s, *board),
                forall|j: int|
                    #![trigger peer_eliminated(b0, *board, x as int, j, d)]
                    0 <= j < i ==> peer_eliminated(b0, *board, x as int, j, d),
                forall|j: int|
                    #![trigger peer_eliminated(b0, *board, j, y as int, d)]
                    0 <= j < i ==> peer_eliminated(b0, *board, j, y as int, d),
                forall|cx: int, cy: int|
                    #![trigger board.value_at(cx, cy)]
                    #![trigger board.cand_at(cx, cy)]
                    cell_in_range(cx, cy) && !(cx == x as int && cy < i) && !(cy == y as int && cx
                        < i) ==> board.value_at(cx, cy) == b0.value_at(cx, cy) && board.cand_at(
                        cx,
                        cy,
                    ) == b0.cand_at(cx, cy),
            decreases 9 - i,
        {
            let ghost b1 = *board;
            sole_candidate_comparison(board, x, y, x, i);
            let ghost b2 = *board;
            proof {
                lemma_ops_trans(b0, b1, b2);
                lemma_target_step(b0, b1, b2, x as int, y as int, d, x as int, i as int);
            }
            sole_candidate_comparison(board, x, y, i, y);
            proof {
                let b3 = *board;
                lemma_ops_trans(b0, b2, b3);
                lemma_target_step(b0, b2, b3, x as int, y as int, d, i as int, y as int);
                assert forall|s: spec_fn(int, int) -> u8|
                    valid_solution(s) && consistent_with(s, b0) implies consistent_with(
                    s,
                    b3,
                ) by {
                    assert(consistent_with(s, b1));
                    assert(consistent_with(s, b2));
                }
                assert forall|j: int| 0 <= j < i + 1 implies peer_eliminated(
                    b0,
                    b3,
                    x as int,
                    j,
                    d,
                ) by {
                    if j < i {
                        lemma_peer_persists(b0, b1, b2, x as int, j, d, x as int, i as int);
                        lemma_peer_persists(b0, b2, b3, x as int, j, d, i as int, y as int);
                    } else {
                        if i == y as int {
                            assert(peer_eliminated(b0, b2, x as int, j, d));
                        }
                        lemma_peer_persists(b0, b2, b3, x as int, j, d, i as int, y as int);
                    }
                }
                assert forall|j: int| 0 <= j < i + 1 implies peer_eliminated(
                    b0,
                    b3,
                    j,
                    y as int,
                    d,
                ) by {
                    if j < i {
                        lemma_peer_persists(b0, b1, b2, j, y as int, d, x as int, i as int);
                        lemma_peer_persists(b0, b2, b3, j, y as int, d, i as int, y as int);
                    } else {
                        if i == x as int {
                            assert(peer_eliminated(b0, b3, x as int, y as int, d));
                        }
                    }
                }
                assert forall|cx: int, cy: int|
                    cell_in_range(cx, cy) && !(cx == x as int && cy < i + 1) && !(cy == y as int
                        && cx < i + 1) implies board.value_at(cx, cy) == b0.value_at(cx, cy)
                    && board.cand_at(cx, cy) == b0.cand_at(cx, cy) by {
                    assert(b1.value_at(cx, cy) == b0.value_at(cx, cy) && b1.cand_at(cx, cy)
                        == b0.cand_at(cx, cy));
                    assert(!(cx == x as int && cy == i as int));
                    assert(b2.value_at(cx, cy) == b1.value_at(cx, cy) && b2.cand_at(cx, cy)
                        == b1.cand_at(cx, cy));
                    assert(!(cx == i as int && cy == y as int));
                    assert(b3.value_at(cx, cy) == b2.value_at(cx, cy) && b3.cand_at(cx, cy)
                        == b2.cand_at(cx, cy));
                }
            }
            i = i + 1;
        }
        let bx = (x / 3) * 3;
        let by = (y / 3) * 3;
        let mut yy: usize = by;
        while yy < by + 3
            invariant
                board.wf(),
                b0.wf(),
                x < 9,
                y < 9,
                1 <= d <= 9,
                d == b0.value_at(x as int, y as int),
                bx == (x / 3) * 3,
                by == (y / 3) * 3,
                by <= yy <= by + 3,
                values_monotonic(b0, *board),
                cand_shrinks(b0, *board),
                wl_superset(b0, *board),
                newly_solved_queued(b0, *board),
                board.measure() <= b0.measure(),
                board.value_at(x as int, y as int) == d,
                board.cand_at(x as int, y as int) == b0.cand_at(x as int, y as int),
                forall|s: spec_fn(int, int) -> u8|
                    #![trigger consistent_with(s, b0)]
                    valid_solution(s) && consistent_with(s, b0) ==> consistent_with(s, *board),
                forall|j: int|
                    #![trigger peer_eliminated(b0, *board, x as int, j, d)]
                    0 <= j < 9 ==> peer_eliminated(b0, *board, x as int, j, d),
                forall|j: int|
                    #![trigger peer_eliminated(b0, *board, j, y as int, d)]
                    0 <= j < 9 ==> peer_eliminated(b0, *board, j, y as int, d),
                forall|cx: int, cy: int|
                    #![trigger peer_eliminated(b0, *board, cx, cy, d)]
                    bx <= cx < bx + 3 && by <= cy < yy ==> peer_eliminated(b0, *board, cx, cy, d),
                forall|cx: int, cy: int|
                    #![trigger board.value_at(cx, cy)]
                    #![trigger board.cand_at(cx, cy)]
                    cell_in_range(cx, cy) && cx != x as int && cy != y as int && !(bx <= cx < bx + 3
                        && by <= cy < yy) ==> board.value_at(cx, cy) == b0.value_at(cx, cy)
                        && board.cand_at(cx, cy) == b0.cand_at(cx, cy),
            decreases by + 3 - yy,
        {
            let mut xx: usize = bx;
            while xx < bx + 3
                invariant
                    board.wf(),
                    b0.wf(),
                    x < 9,
                    y < 9,
                    1 <= d <= 9,
                    d == b0.value_at(x as int, y as int),
                    bx == (x / 3) * 3,
                    by == (y / 3) * 3,
                    by <= yy < by + 3,
                    bx <= xx <= bx + 3,
                    values_monotonic(b0, *board),
                    cand_shrinks(b0, *board),
                    wl_superset(b0, *board),
                    newly_solved_queued(b0, *board),
                    board.measure() <= b0.measure(),
                    board.value_at(x as int, y as int) == d,
                    board.cand_at(x as int, y as int) == b0.cand_at(x as int, y as int),
                    forall|s: spec_fn(int, int) -> u8|
                        #![trigger consistent_with(s, b0)]
                        valid_solution(s) && consistent_with(s, b0) ==> consistent_with(s, *board),
                    forall|j: int|
                        #![trigger peer_eliminated(b0, *board, x as int, j, d)]
                        0 <= j < 9 ==> peer_eliminated(b0, *board, x as int, j, d),
                    forall|j: int|
                        #![trigger peer_eliminated(b0, *board, j, y as int, d)]
                        0 <= j < 9 ==> peer_eliminated(b0, *board, j, y as int, d),
                    forall|cx: int, cy: int|
                        #![trigger peer_eliminated(b0, *board, cx, cy, d)]
                        bx <= cx < bx + 3 && (by <= cy < yy || (cy == yy && bx <= cx < xx))
                            ==> peer_eliminated(b0, *board, cx, cy, d),
                    forall|cx: int, cy: int|
                        #![trigger board.value_at(cx, cy)]
                        #![trigger board.cand_at(cx, cy)]
                        cell_in_range(cx, cy) && cx != x as int && cy != y as int && !(bx <= cx < bx
                            + 3 && (by <= cy < yy || (cy == yy as int && cx < xx)))
                            ==> board.value_at(cx, cy) == b0.value_at(cx, cy) && board.cand_at(
                            cx,
                            cy,
                        ) == b0.cand_at(cx, cy),
                decreases bx + 3 - xx,
            {
                let ghost b1 = *board;
                sole_candidate_comparison(board, x, y, xx, yy);
                proof {
                    let b2 = *board;
                    lemma_ops_trans(b0, b1, b2);
                    assert((xx as int) / 3 == (x as int) / 3 && (yy as int) / 3 == (y as int) / 3)
                        by (nonlinear_arith)
                        requires
                            bx as int == 3 * ((x as int) / 3),
                            by as int == 3 * ((y as int) / 3),
                            bx <= xx < bx + 3,
                            by <= yy < by + 3,
                    ;
                    assert forall|s: spec_fn(int, int) -> u8|
                        valid_solution(s) && consistent_with(s, b0) implies consistent_with(
                        s,
                        b2,
                    ) by {
                        assert(consistent_with(s, b1));
                    }
                    if xx as int == x as int {
                        assert(peer_eliminated(b0, b1, xx as int, yy as int, d));
                    } else if yy as int == y as int {
                        assert(peer_eliminated(b0, b1, xx as int, yy as int, d));
                    }
                    lemma_target_step(b0, b1, b2, x as int, y as int, d, xx as int, yy as int);
                    assert forall|j: int| 0 <= j < 9 implies peer_eliminated(
                        b0,
                        b2,
                        x as int,
                        j,
                        d,
                    ) by {
                        lemma_peer_persists(b0, b1, b2, x as int, j, d, xx as int, yy as int);
                    }
                    assert forall|j: int| 0 <= j < 9 implies peer_eliminated(
                        b0,
                        b2,
                        j,
                        y as int,
                        d,
                    ) by {
                        lemma_peer_persists(b0, b1, b2, j, y as int, d, xx as int, yy as int);
                    }
                    assert forall|cx: int, cy: int|
                        bx <= cx < bx + 3 && (by <= cy < yy || (cy == yy && bx <= cx < xx
                            + 1)) implies peer_eliminated(b0, b2, cx, cy, d) by {
                        if cx == xx as int && cy == yy as int {
                        } else {
                            lemma_peer_persists(b0, b1, b2, cx, cy, d, xx as int, yy as int);
                        }
                    }
                    assert forall|cx: int, cy: int|
                        cell_in_range(cx, cy) && cx != x as int && cy != y as int && !(bx <= cx < bx
                            + 3 && (by <= cy < yy || (cy == yy as int && cx < xx
                            + 1))) implies board.value_at(cx, cy) == b0.value_at(cx, cy)
                        && board.cand_at(cx, cy) == b0.cand_at(cx, cy) by {
                        assert(b1.value_at(cx, cy) == b0.value_at(cx, cy) && b1.cand_at(cx, cy)
                            == b0.cand_at(cx, cy));
                        assert(!(cx == xx as int && cy == yy as int));
                        assert(b2.value_at(cx, cy) == b1.value_at(cx, cy) && b2.cand_at(cx, cy)
                            == b1.cand_at(cx, cy));
                    }
                }
                xx = xx + 1;
            }
            yy = yy + 1;
        }
        proof {
            assert forall|cx: int, cy: int|
                cell_in_range(cx, cy) && in_same_unit(x as int, y as int, cx, cy) implies
                peer_eliminated(b0, *board, cx, cy, d) by {
                if cx == x as int {
                    assert(peer_eliminated(b0, *board, x as int, cy, d));
                } else if cy == y as int {
                    assert(peer_eliminated(b0, *board, cx, y as int, d));
                } else {
                    assert(bx as int <= cx < bx as int + 3 && by as int <= cy < by as int + 3)
                        by (nonlinear_arith)
                        requires
                            0 <= cx < 9,
                            0 <= cy < 9,
                            cx / 3 == (x as int) / 3,
                            cy / 3 == (y as int) / 3,
                            bx as int == 3 * ((x as int) / 3),
                            by as int == 3 * ((y as int) / 3),
                    ;
                    assert(peer_eliminated(b0, *board, cx, cy, d));
                }
            }
            assert forall|cx: int, cy: int|
                cell_in_range(cx, cy) && !in_same_unit(x as int, y as int, cx, cy) implies
                board.value_at(cx, cy) == b0.value_at(cx, cy) && board.cand_at(cx, cy)
                == b0.cand_at(cx, cy) by {
                assert(!(bx <= cx < bx + 3 && by <= cy < by + 3)) by (nonlinear_arith)
                    requires
                        0 <= cx < 9,
                        0 <= cy < 9,
                        !(cx / 3 == (x as int) / 3 && cy / 3 == (y as int) / 3),
                        bx as int == 3 * ((x as int) / 3),
                        by as int == 3 * ((y as int) / 3),
                        x < 9,
                        y < 9,
                ;
            }
            assert forall|cx: int, cy: int|
                cell_in_range(cx, cy) && b0.value_at(cx, cy) == 0 implies board.value_at(cx, cy)
                != d by {
                if in_same_unit(x as int, y as int, cx, cy) {
                    assert(peer_eliminated(b0, *board, cx, cy, d));
                    b0.lemma_cand_wf(cx, cy);
                    lemma_clear_digit(b0.cand_at(cx, cy), d);
                    lemma_digit_not_in_cleared(b0.cand_at(cx, cy) & !mask_of(d), d);
                }
            }
            assert forall|cx: int, cy: int|
                cell_in_range(cx, cy) && in_same_unit(x as int, y as int, cx, cy) && !(cx == x as int
                    && cy == y as int) implies solved_or_excludes(*board, cx, cy, d) by {
                assert(peer_eliminated(b0, *board, cx, cy, d));
                if b0.value_at(cx, cy) == 0 {
                    b0.lemma_cand_wf(cx, cy);
                    lemma_clear_digit(b0.cand_at(cx, cy), d);
                    if digit_of(b0.cand_at(cx, cy) & !mask_of(d)) == 0 {
                        assert(board.cand_at(cx, cy) & mask_of(d) == 0);
                    }
                }
            }
        }
    } else {
        proof {
            lemma_ops_refl(*board);
        }
    }
}

/// One comparison aimed at `(tx, ty)` with the digit of the solved source
/// `(x, y)` leaves the target eliminated relative to the base state `b0`,
/// provided the target was still untouched or already eliminated; in the
/// latter case the step is a full no-op.
proof fn lemma_target_step(
    b0: Board,
    b1: Board,
    b2: Board,
    x: int,
    y: int,
    d: u8,
    tx: int,
    ty: int,
)
    requires
        b0.wf(),
        cell_in_range(x, y),
        cell_in_range(tx, ty),
        1 <= d <= 9,
        (b1.value_at(tx, ty) == b0.value_at(tx, ty) && b1.cand_at(tx, ty) == b0.cand_at(tx, ty))
            || peer_eliminated(b0, b1, tx, ty, d),
        (tx == x && ty == y) ==> b2 == b1,
        b1.value_at(tx, ty) != 0 ==> b2 == b1,
        !(tx == x && ty == y) && b1.value_at(tx, ty) == 0 ==> {
            let m = b1.cand_at(tx, ty);
            let nm = m & !mask_of(d);
            &&& (digit_of(nm) == 0 && nm == m ==> b2 == b1)
            &&& (digit_of(nm) != 0 || nm != m ==> b2.cand_at(tx, ty) == nm && b2.value_at(tx, ty)
                == digit_of(nm))
        },
    ensures
        peer_eliminated(b0, b2, tx, ty, d) || (tx == x && ty == y),
        peer_eliminated(b0, b1, tx, ty, d) ==> b2 == b1,
{
    b0.lemma_cand_wf(tx, ty);
    let m0 = b0.cand_at(tx, ty);
    let nm0 = m0 & !mask_of(d);
    lemma_clear_digit(m0, d);
    if peer_eliminated(b0, b1, tx, ty, d) {
        if b0.value_at(tx, ty) == 0 && digit_of(nm0) == 0 && b1.value_at(tx, ty) == 0 && !(tx == x
            && ty == y) {
            lemma_clear_digit(nm0, d);
        }
    }
}

/// A cell already eliminated relative to `b0` stays so across one further
/// comparison aimed at `(tx, ty)`: an untouched cell keeps its value and
/// set, and a re-targeted cell is left alone.
proof fn lemma_peer_persists(
    b0: Board,
    b1: Board,
    b2: Board,
    cx: int,
    cy: int,
    d: u8,
    tx: int,
    ty: int,
)
    requires
        peer_eliminated(b0, b1, cx, cy, d),
        cell_in_range(cx, cy),
        unchanged_except(b1, b2, tx, ty),
        (cx == tx && cy == ty) ==> b2 == b1,
    ensures
        peer_eliminated(b0, b2, cx, cy, d),
{
    if !(cx == tx && cy == ty) {
        assert(b2.value_at(cx, cy) == b1.value_at(cx, cy));
        assert(b2.cand_at(cx, cy) == b1.cand_at(cx, cy));
    }
}

/// A unit once cleared of a digit stays cleared: any operation that keeps
/// solved values and only shrinks candidate sets preserves the exclusion.
pub proof fn lemma_unit_excluded_preserved(a: Board, b: Board, x: int, y: int, d: u8)
    requires
        unit_excluded(a, x, y, d),
        values_monotonic(a, b),
        cand_shrinks(a, b),
    ensures
        unit_excluded(b, x, y, d),
{
    assert forall|cx: int, cy: int|
        cell_in_range(cx, cy) && in_same_unit(x, y, cx, cy) && !(cx == x && cy
            == y) implies solved_or_excludes(b, cx, cy, d) by {
        assert(solved_or_excludes(a, cx, cy, d));
        if a.value_at(cx, cy) != 0 {
            assert(b.value_at(cx, cy) == a.value_at(cx, cy));
        } else {
            assert(b.cand_at(cx, cy) & !a.cand_at(cx, cy) == 0);
            lemma_mask_shrink_keeps_exclusion(a.cand_at(cx, cy), b.cand_at(cx, cy), mask_of(d));
        }
    }
}

} // verus!
