//! The unique-candidate strategy: sweeps the whole board and assigns every
//! unsolved cell whose candidate set has collapsed to a single digit as a
//! byproduct of eliminations performed elsewhere.

use vstd::prelude::*;

use crate::board::{
    cand_shrinks, lemma_ops_refl, lemma_ops_trans, newly_solved_queued, values_monotonic,
    wl_superset, Board,
};
use crate::coordinate::{cell_in_range, Coordinate};
use crate::solution::{consistent_with, valid_solution};
use crate::sudoku_cell_bitmask::{digit_of, lemma_digit_of_range, lemma_mask_of_digit};
use crate::sudoku_cell_bitmask::{lemma_mask_overlap_same_digit, lemma_mask_self_overlap, mask_of};

verus! {

/// The value a full sweep leaves in a cell: a solved cell keeps its digit,
/// and an unsolved cell gains the digit its candidate set determines (0,
/// that is no change, unless the set is a singleton).
pub open spec fn swept_value(b: Board, cx: int, cy: int) -> u8 {
    if b.value_at(cx, cy) != 0 {
        b.value_at(cx, cy)
    } else {
        digit_of(b.cand_at(cx, cy))
    }
}

/// The sweep has nothing left to do: no unsolved cell's candidate set
/// determines a digit. One sweep establishes this, so a second sweep right
/// after changes nothing at all.
pub open spec fn sweep_fixed(b: Board) -> bool {
    forall|cx: int, cy: int|
        #![trigger b.value_at(cx, cy)]
        cell_in_range(cx, cy) ==> swept_value(b, cx, cy) == b.value_at(cx, cy)
}

/// Assigns every unsolved cell whose candidate set is a singleton. No
/// candidate set changes, and afterwards no unsolved cell determines a
/// digit; when no cell needed assignment, the board (worklist included) is
/// exactly as it came.
pub fn solve(board: &mut Board)
    requires
        old(board).wf(),
    ensures
        final(board).wf(),
        values_monotonic(*old(board), *final(board)),
        cand_shrinks(*old(board), *final(board)),
        wl_superset(*old(board), *final(board)),
        newly_solved_queued(*old(board), *final(board)),
        final(board).measure() <= old(board).measure(),
        forall|s: spec_fn(int, int) -> u8|
            #![trigger consistent_with(s, *old(board))]
            valid_solution(s) && consistent_with(s, *old(board)) ==> consistent_with(
                s,
                *final(board),
            ),
        sweep_fixed(*old(board)) ==> *final(board) == *old(board),
        sweep_fixed(*final(board)),
        forall|cx: int, cy: int|
            #![trigger final(board).cand_at(cx, cy)]
            cell_in_range(cx, cy) ==> final(board).cand_at(cx, cy) == old(board).cand_at(cx, cy),
        forall|cx: int, cy: int|
            #![trigger final(board).value_at(cx, cy)]
            cell_in_range(cx, cy) ==> final(board).value_at(cx, cy) == swept_value(
                *old(board),
                cx,
                cy,
            ),
{
    let ghost b0 = *board;
    proof {
        lemma_ops_refl(b0);
    }
    let mut y: usize = 0;
    while y < 9
        invariant
            y <= 9,
            board.wf(),
            values_monotonic(b0, *board),
            cand_shrinks(b0, *board),
            wl_superset(b0, *board),
            newly_solved_queued(b0, *board),
            board.measure() <= b0.measure(),
            forall|s: spec_fn(int, int) -> u8|
                #![trigger consistent_with(s, b0)]
                valid_solution(s) && consistent_with(s, b0) ==> consistent_with(s, *board),
            sweep_fixed(b0) ==> *board == b0,
            forall|cx: int, cy: int|
                #![trigger board.cand_at(cx, cy)]
                cell_in_range(cx, cy) ==> board.cand_at(cx, cy) == b0.cand_at(cx, cy),
            forall|cx: int, cy: int|
                #![trigger board.value_at(cx, cy)]
                cell_in_range(cx, cy) && cy < y ==> board.value_at(cx, cy) == swept_value(
                    b0,
                    cx,
                    cy,
                ),
            forall|cx: int, cy: int|
                #![trigger board.value_at(cx, cy)]
                cell_in_range(cx, cy) && cy >= y ==> board.value_at(cx, cy) == b0.value_at(cx, cy),
        decreases 9 - y,
    {
        let mut x: usize = 0;
        while x < 9
            invariant
                y < 9,
                x <= 9,
                board.wf(),
                values_monotonic(b0, *board),
                cand_shrinks(b0, *board),
                wl_superset(b0, *board),
                newly_solved_queued(b0, *board),
                board.measure() <= b0.measure(),
                forall|s: spec_fn(int, int) -> u8|
                    #![trigger consistent_with(s, b0)]
                    valid_solution(s) && consistent_with(s, b0) ==> consistent_with(s, *board),
                sweep_fixed(b0) ==> *board == b0,
                forall|cx: int, cy: int|
                    #![trigger board.cand_at(cx, cy)]
                    cell_in_range(cx, cy) ==> board.cand_at(cx, cy) == b0.cand_at(cx, cy),
                forall|cx: int, cy: int|
                    #![trigger board.value_at(cx, cy)]
                    cell_in_range(cx, cy) && (cy < y || (cy == y && cx < x)) ==> board.value_at(
                        cx,
                        cy,
                    ) == swept_value(b0, cx, cy),
                forall|cx: int, cy: int|
                    #![trigger board.value_at(cx, cy)]
                    cell_in_range(cx, cy) && (cy > y || (cy == y && cx >= x)) ==> board.value_at(
                        cx,
                        cy,
                    ) == b0.value_at(cx, cy),
            decreases 9 - x,
        {
            let ghost b1 = *board;
            if board.get_value(x, y) == 0 {
                let cand = board.get_candidates(x, y);
                match cand.value() {
                    Some(digit) => {
                        proof {
                            lemma_digit_of_range(cand.mask());
                            lemma_mask_of_digit(digit);
                        }
                        board.assign(Coordinate { x, y }, digit);
                        proof {
                            if sweep_fixed(b0) {
                                assert(b1.value_at(x as int, y as int) == b0.value_at(
                                    x as int,
                                    y as int,
                                ));
                                assert(b1.cand_at(x as int, y as int) == b0.cand_at(
                                    x as int,
                                    y as int,
                                ));
                                assert(swept_value(b0, x as int, y as int) == b0.value_at(
                                    x as int,
                                    y as int,
                                ));
                            }
                            lemma_ops_trans(b0, b1, *board);
                            assert forall|cx: int, cy: int|
                                cell_in_range(cx, cy) && !(cx == x as int && cy
                                    == y as int) implies board.value_at(cx, cy) == b1.value_at(
                                cx,
                                cy,
                            ) && board.cand_at(cx, cy) == b1.cand_at(cx, cy) by {}
                            assert forall|s: spec_fn(int, int) -> u8|
                                valid_solution(s) && consistent_with(s, b0) implies consistent_with(
                                s,
                                *board,
                            ) by {
                                assert(consistent_with(s, b1));
                                let st = s(x as int, y as int);
                                assert(b1.cand_at(x as int, y as int) & mask_of(st) != 0);
                                assert(b1.cand_at(x as int, y as int) == mask_of(digit));
                                lemma_mask_overlap_same_digit(digit, st);
                                assert forall|x2: int, y2: int| cell_in_range(x2, y2) implies (1
                                    <= #[trigger] s(x2, y2) <= 9) && (board.value_at(x2, y2) != 0
                                    ==> s(x2, y2) == board.value_at(x2, y2)) && (board.cand_at(
                                    x2,
                                    y2,
                                ) & mask_of(s(x2, y2)) != 0) by {
                                    if x2 == x as int && y2 == y as int {
                                        lemma_mask_self_overlap(digit);
                                    } else {
                                        assert(board.value_at(x2, y2) == b1.value_at(x2, y2));
                                        assert(board.cand_at(x2, y2) == b1.cand_at(x2, y2));
                                    }
                                }
                            }
                            assert(board.cand_at(x as int, y as int) == b1.cand_at(
                                x as int,
                                y as int,
                            ));
                        }
                    },
                    None => {
                    },
                }
            }
            x = x + 1;
        }
        y = y + 1;
    }
    proof {
        assert forall|cx: int, cy: int| cell_in_range(cx, cy) implies swept_value(
            *board,
            cx,
            cy,
        ) == board.value_at(cx, cy) by {
            if board.value_at(cx, cy) == 0 {
                assert(board.value_at(cx, cy) == swept_value(b0, cx, cy));
                assert(board.cand_at(cx, cy) == b0.cand_at(cx, cy));
            }
        }
    }
}

} // verus!
