//! The fixpoint driver: pops coordinates from the worklist and dispatches
//! each to the strategies in a fixed order until the board is solved or the
//! worklist drains.

use vstd::prelude::*;

use crate::board::{
    is_given, lemma_cand_shrinks_trans, lemma_drop_last_contains, lemma_monotonic_count,
    lemma_ops_trans, lemma_same_cells_monotonic, lemma_same_state_ops, lemma_values_monotonic_trans,
    seeded, values_monotonic, Board,
};
use crate::coordinate::{cell_in_range, Coordinate};
use crate::solution::{consistent_with, lemma_consistent_same_cells, valid_solution};
use crate::strategies::sole_candidate::{lemma_unit_excluded_preserved, unit_excluded};
use crate::strategies::{column_row_exclusion, sole_candidate, unique_candidate};

verus! {

/// Every solved cell whose coordinate is no longer queued has been fully
/// propagated: its digit is excluded from every other cell of its row, its
/// column and its block. This holds of a freshly built board (all givens
/// are queued) and the solve loop maintains it, so a drained worklist
/// means a true fixpoint.
pub open spec fn fully_propagated(b: Board) -> bool {
    forall|x: int, y: int|
        #![trigger b.value_at(x, y)]
        cell_in_range(x, y) && b.value_at(x, y) != 0 && !b.worklist().contains(
            Coordinate { x: x as usize, y: y as usize },
        ) ==> unit_excluded(b, x, y, b.value_at(x, y))
}

/// A board as `Board::new` builds it is trivially propagated: every solved
/// cell is a given, and every given is still queued.
pub proof fn lemma_new_board_propagated(b: Board, raw: Seq<Vec<i32>>)
    requires
        forall|x: int, y: int|
            #![trigger seeded(b, raw, x, y)]
            cell_in_range(x, y) ==> seeded(b, raw, x, y),
        forall|c: Coordinate|
            #![trigger b.worklist().contains(c)]
            b.worklist().contains(c) <==> (c.wf() && is_given(raw, c.x as int, c.y as int)),
    ensures
        fully_propagated(b),
{
    assert forall|x: int, y: int|
        cell_in_range(x, y) && #[trigger] b.value_at(x, y) != 0 && !b.worklist().contains(
            Coordinate { x: x as usize, y: y as usize },
        ) implies unit_excluded(b, x, y, b.value_at(x, y)) by {
        let c = Coordinate { x: x as usize, y: y as usize };
        assert(seeded(b, raw, x, y));
        assert(is_given(raw, c.x as int, c.y as int));
        assert(b.worklist().contains(c));
    }
}

/// Runs constraint propagation to its fixpoint. Per iteration: pop one
/// coordinate; stop if the board is already solved; otherwise propagate the
/// popped cell's digit through its units, run the exclusion sweep, and then
/// assign any cell whose candidate set has collapsed. The loop ends in one
/// of two states the caller tells apart with `is_solved`: solved (all 81
/// cells resolved) or stalled (worklist empty, the puzzle needs a deduction
/// rule this solver does not have). Solved cells are never changed, so the
/// count only grows; every mutation shrinks the board's measure, so the
/// loop terminates; and a stalled board is a true fixpoint: every solved
/// cell's digit is excluded from all its peers.
pub fn solve_board(board: &mut Board)
    requires
        old(board).wf(),
    ensures
        final(board).wf(),
        values_monotonic(*old(board), *final(board)),
        old(board).count() <= final(board).count() <= 81,
        final(board).count() == 81 || final(board).worklist().len() == 0,
        forall|s: spec_fn(int, int) -> u8|
            #![trigger consistent_with(s, *old(board))]
            valid_solution(s) && consistent_with(s, *old(board)) ==> consistent_with(
                s,
                *final(board),
            ),
        fully_propagated(*old(board)) ==> final(board).count() == 81 || fully_propagated(
            *final(board),
        ),
        fully_propagated(*old(board)) && final(board).count() != 81 ==> forall|x: int, y: int|
            #![trigger final(board).value_at(x, y)]
            cell_in_range(x, y) && final(board).value_at(x, y) != 0 ==> unit_excluded(
                *final(board),
                x,
                y,
                final(board).value_at(x, y),
            ),
{
    let ghost b0 = *board;
    loop
        invariant_except_break
            fully_propagated(b0) ==> fully_propagated(*board),
        invariant
            board.wf(),
            values_monotonic(b0, *board),
            forall|s: spec_fn(int, int) -> u8|
                #![trigger consistent_with(s, b0)]
                valid_solution(s) && consistent_with(s, b0) ==> consistent_with(s, *board),
        ensures
            board.wf(),
            values_monotonic(b0, *board),
            board.count() == 81 || board.worklist().len() == 0,
            fully_propagated(b0) ==> (board.count() == 81 || fully_propagated(*board)),
        decreases board.measure(),
    {
        let ghost bstart = *board;
        let c = match board.pop_work() {
            Some(c) => c,
            None => {
                proof {
                    lemma_same_cells_monotonic(bstart, *board);
                    lemma_values_monotonic_trans(b0, bstart, *board);
                    assert forall|s: spec_fn(int, int) -> u8|
                        valid_solution(s) && consistent_with(s, b0) implies consistent_with(
                        s,
                        *board,
                    ) by {
                        lemma_consistent_same_cells(s, bstart, *board);
                    }
                    if fully_propagated(b0) {
                        lemma_same_state_ops(bstart, *board);
                        assert forall|x: int, y: int|
                            cell_in_range(x, y) && #[trigger] board.value_at(x, y) != 0
                                && !board.worklist().contains(
                                Coordinate { x: x as usize, y: y as usize },
                            ) implies unit_excluded(*board, x, y, board.value_at(x, y)) by {
                            assert(board.value_at(x, y) == bstart.value_at(x, y));
                            assert(unit_excluded(bstart, x, y, bstart.value_at(x, y)));
                            lemma_unit_excluded_preserved(
                                bstart,
                                *board,
                                x,
                                y,
                                bstart.value_at(x, y),
                            );
                        }
                    }
                }
                break ;
            },
        };
        proof {
            lemma_same_cells_monotonic(bstart, *board);
            lemma_values_monotonic_trans(b0, bstart, *board);
            assert forall|s: spec_fn(int, int) -> u8|
                valid_solution(s) && consistent_with(s, b0) implies consistent_with(
                s,
                *board,
            ) by {
                lemma_consistent_same_cells(s, bstart, *board);
            }
        }
        if board.is_solved() {
            proof {
                board.lemma_count_bound();
            }
            break ;
        }
        let ghost b1 = *board;
        sole_candidate::solve(board, c.x, c.y);
        let ghost b2 = *board;
        column_row_exclusion::solve(board);
        let ghost b3 = *board;
        unique_candidate::solve(board);
        proof {
            let b4 = *board;
            lemma_values_monotonic_trans(b0, b1, b2);
            lemma_values_monotonic_trans(b0, b2, b3);
            lemma_values_monotonic_trans(b0, b3, b4);
            assert forall|s: spec_fn(int, int) -> u8|
                valid_solution(s) && consistent_with(s, b0) implies consistent_with(s, b4) by {
                assert(consistent_with(s, b1));
                assert(consistent_with(s, b2));
                assert(consistent_with(s, b3));
            }
            board.lemma_measure_nonneg();
            lemma_ops_trans(b1, b2, b3);
            lemma_ops_trans(b1, b3, b4);
            if fully_propagated(b0) {
                assert forall|x: int, y: int|
                    cell_in_range(x, y) && #[trigger] b4.value_at(x, y) != 0
                        && !b4.worklist().contains(
                        Coordinate { x: x as usize, y: y as usize },
                    ) implies unit_excluded(b4, x, y, b4.value_at(x, y)) by {
                    let co = Coordinate { x: x as usize, y: y as usize };
                    assert(!b1.worklist().contains(co));
                    if b1.value_at(x, y) != 0 {
                        let v = b1.value_at(x, y);
                        assert(b4.value_at(x, y) == v);
                        if x == c.x as int && y == c.y as int {
                            assert(unit_excluded(b2, x, y, v));
                            lemma_unit_excluded_preserved(b2, b3, x, y, v);
                            lemma_unit_excluded_preserved(b3, b4, x, y, v);
                        } else {
                            if bstart.worklist().contains(co) {
                                assert(co != bstart.worklist().last());
                                lemma_drop_last_contains(bstart.worklist(), co);
                            }
                            assert(!bstart.worklist().contains(co));
                            assert(bstart.value_at(x, y) == v);
                            assert(unit_excluded(bstart, x, y, v));
                            lemma_values_monotonic_trans(bstart, b1, b4);
                            lemma_cand_shrinks_trans(bstart, b1, b4);
                            lemma_unit_excluded_preserved(bstart, b4, x, y, v);
                        }
                    } else {
                        assert(b4.worklist().contains(co));
                    }
                }
            }
        }
    }
    proof {
        board.lemma_count_bound();
        lemma_monotonic_count(b0, *board);
        if fully_propagated(b0) && board.count() != 81 {
            assert forall|x: int, y: int|
                cell_in_range(x, y) && #[trigger] board.value_at(x, y) != 0 implies unit_excluded(
                *board,
                x,
                y,
                board.value_at(x, y),
            ) by {
                assert(!board.worklist().contains(Coordinate { x: x as usize, y: y as usize }));
            }
        }
    }
}

} // verus!
