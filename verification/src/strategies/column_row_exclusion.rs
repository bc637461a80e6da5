//! The row/column/block exclusion strategy: when a digit is still permitted
//! in exactly one cell of a unit, that cell must hold the digit, even if its
//! own candidate set still has other digits left. This is a stronger
//! deduction than sole-candidate elimination, which only removes
//! impossibilities.

use vstd::prelude::*;

use crate::board::{
    cand_changed_solved, cand_shrinks, lemma_changed_solved_trans, lemma_ops_refl, lemma_ops_trans,
    newly_solved_queued, unchanged_except, values_monotonic, wl_after_push, wl_superset, Board,
};
use crate::coordinate::{cell_in_range, Coordinate};
use crate::solution::{block_has, col_has, consistent_with, row_has, valid_solution};
use crate::sudoku_cell_bitmask::{lemma_mask_overlap_same_digit, lemma_mask_self_overlap, mask_of};

verus! {

/// The cell at `c` still permits the digit `d`. A solved cell permits
/// exactly its own value, since its candidate set is that singleton.
pub open spec fn admits(b: Board, c: Coordinate, d: u8) -> bool {
    b.cand_at(c.x as int, c.y as int) & mask_of(d) != 0
}

/// How many of the listed cells still permit the digit `d`.
pub open spec fn admit_count(b: Board, cells: Seq<Coordinate>, d: u8) -> int
    decreases cells.len(),
{
    if cells.len() == 0 {
        0
    } else {
        admit_count(b, cells.drop_last(), d) + if admits(b, cells.last(), d) {
            1int
        } else {
            0int
        }
    }
}

proof fn lemma_admit_count_nonneg(b: Board, cells: Seq<Coordinate>, d: u8)
    ensures
        0 <= admit_count(b, cells, d) <= cells.len(),
    decreases cells.len(),
{
    if cells.len() > 0 {
        lemma_admit_count_nonneg(b, cells.drop_last(), d);
    }
}

proof fn lemma_admit_count_one(b: Board, cells: Seq<Coordinate>, d: u8, k: int)
    requires
        0 <= k < cells.len(),
        admits(b, cells[k], d),
    ensures
        admit_count(b, cells, d) >= 1,
    decreases cells.len(),
{
    lemma_admit_count_nonneg(b, cells.drop_last(), d);
    if k < cells.len() - 1 {
        lemma_admit_count_one(b, cells.drop_last(), d, k);
    }
}

proof fn lemma_admit_count_two(b: Board, cells: Seq<Coordinate>, d: u8, k1: int, k2: int)
    requires
        0 <= k1 < k2 < cells.len(),
        admits(b, cells[k1], d),
        admits(b, cells[k2], d),
    ensures
        admit_count(b, cells, d) >= 2,
    decreases cells.len(),
{
    if k2 == cells.len() - 1 {
        lemma_admit_count_one(b, cells.drop_last(), d, k1);
    } else {
        lemma_admit_count_two(b, cells.drop_last(), d, k1, k2);
    }
}

/// The nine cells of row `y`, left to right.
pub open spec fn row_cells(y: int) -> Seq<Coordinate> {
    Seq::new(9, |x: int| Coordinate { x: x as usize, y: y as usize })
}

/// The nine cells of column `x`, top to bottom.
pub open spec fn col_cells(x: int) -> Seq<Coordinate> {
    Seq::new(9, |yy: int| Coordinate { x: x as usize, y: yy as usize })
}

/// The nine cells of the 3x3 block whose top-left corner is `(bx, by)`, in
/// row-major order.
pub open spec fn block_cells(bx: int, by: int) -> Seq<Coordinate> {
    Seq::new(9, |k: int| Coordinate { x: (bx + k % 3) as usize, y: (by + k / 3) as usize })
}

/// The cell-list is one of the 27 units: a whole row, a whole column, or
/// a whole 3x3 block.
pub open spec fn is_unit(cells: Seq<Coordinate>) -> bool {
    ||| exists|yy: int| 0 <= yy < 9 && cells == row_cells(yy)
    ||| exists|xx: int| 0 <= xx < 9 && cells == col_cells(xx)
    ||| exists|bxx: int, byy: int|
        (bxx == 0 || bxx == 3 || bxx == 6) && (byy == 0 || byy == 3 || byy == 6) && cells
            == block_cells(bxx, byy)
}

/// Every listed cell that still admitted `d` in the base state `b0` is
/// solved in `b`: what a sweep guarantees for a unit in which `d` had
/// exactly one place left.
pub open spec fn lone_place_solved(b0: Board, b: Board, cells: Seq<Coordinate>, d: u8) -> bool {
    forall|k: int|
        #![trigger cells[k]]
        0 <= k < cells.len() && admits(b0, cells[k], d) ==> b.value_at(
            cells[k].x as int,
            cells[k].y as int,
        ) != 0
}

/// A cell that admits a digit under shrunken candidate sets admitted it
/// before the shrinking.
proof fn lemma_admits_mono(a: Board, b: Board, c: Coordinate, d: u8)
    requires
        cand_shrinks(a, b),
        c.wf(),
        admits(b, c, d),
    ensures
        admits(a, c, d),
{
    if !admits(a, c, d) {
        assert(b.cand_at(c.x as int, c.y as int) & !a.cand_at(c.x as int, c.y as int) == 0);
        crate::sudoku_cell_bitmask::lemma_mask_shrink_keeps_exclusion(
            a.cand_at(c.x as int, c.y as int),
            b.cand_at(c.x as int, c.y as int),
            mask_of(d),
        );
    }
}

/// Shrinking candidate sets cannot raise the number of cells that admit a
/// digit.
proof fn lemma_admit_count_mono(a: Board, b: Board, cells: Seq<Coordinate>, d: u8)
    requires
        cand_shrinks(a, b),
        forall|k: int| #![trigger cells[k]] 0 <= k < cells.len() ==> cells[k].wf(),
    ensures
        admit_count(b, cells, d) <= admit_count(a, cells, d),
    decreases cells.len(),
{
    if cells.len() > 0 {
        assert forall|k: int|
            0 <= k < cells.drop_last().len() implies (#[trigger] cells.drop_last()[k]).wf() by {
            assert(cells.drop_last()[k] == cells[k]);
        }
        lemma_admit_count_mono(a, b, cells.drop_last(), d);
        if admits(b, cells.last(), d) {
            lemma_admits_mono(a, b, cells.last(), d);
        }
    }
}

/// One exclusion step establishes the lone-place claim for its unit against
/// the sweep's base state: when `d` had one place left at base, either that
/// place still admits `d` at the step (and is assigned), or its set changed
/// on the way, which only an assignment does.
proof fn lemma_lone_place(b0: Board, bp: Board, bq: Board, cells: Seq<Coordinate>, d: u8)
    requires
        cells.len() == 9,
        forall|k: int| #![trigger cells[k]] 0 <= k < 9 ==> cells[k].wf(),
        1 <= d <= 9,
        admit_count(b0, cells, d) == 1,
        cand_shrinks(b0, bp),
        cand_changed_solved(b0, bp),
        values_monotonic(bp, bq),
        admit_count(bp, cells, d) == 1 ==> forall|k: int|
            #![trigger cells[k]]
            0 <= k < 9 && admits(bp, cells[k], d) ==> bq.value_at(
                cells[k].x as int,
                cells[k].y as int,
            ) == d,
    ensures
        lone_place_solved(b0, bq, cells, d),
{
    assert forall|k: int|
        0 <= k < cells.len() && admits(b0, #[trigger] cells[k], d) implies bq.value_at(
        cells[k].x as int,
        cells[k].y as int,
    ) != 0 by {
        let c = cells[k];
        if admits(bp, c, d) {
            lemma_admit_count_one(bp, cells, d, k);
            lemma_admit_count_mono(b0, bp, cells, d);
            assert(admit_count(bp, cells, d) == 1);
            assert(bq.value_at(c.x as int, c.y as int) == d);
        } else {
            assert(bp.cand_at(c.x as int, c.y as int) != b0.cand_at(c.x as int, c.y as int));
            assert(bp.value_at(c.x as int, c.y as int) != 0);
            assert(bq.value_at(c.x as int, c.y as int) == bp.value_at(c.x as int, c.y as int));
        }
    }
}

/// A unit whose lone place is solved stays so: later operations keep solved
/// values.
proof fn lemma_lone_place_persists(b0: Board, a: Board, b: Board, cells: Seq<Coordinate>, d: u8)
    requires
        lone_place_solved(b0, a, cells, d),
        forall|k: int| #![trigger cells[k]] 0 <= k < cells.len() ==> cells[k].wf(),
        values_monotonic(a, b),
    ensures
        lone_place_solved(b0, b, cells, d),
{
    assert forall|k: int|
        0 <= k < cells.len() && admits(b0, #[trigger] cells[k], d) implies b.value_at(
        cells[k].x as int,
        cells[k].y as int,
    ) != 0 by {
        assert(a.value_at(cells[k].x as int, cells[k].y as int) != 0);
        assert(b.value_at(cells[k].x as int, cells[k].y as int) == a.value_at(
            cells[k].x as int,
            cells[k].y as int,
        ));
    }
}

/// Every cell of a generated unit lies on the board.
proof fn lemma_unit_cells_wf(cells: Seq<Coordinate>)
    requires
        is_unit(cells),
    ensures
        cells.len() == 9,
        forall|k: int| #![trigger cells[k]] 0 <= k < 9 ==> cells[k].wf(),
{
    assert forall|k: int| 0 <= k < 9 implies (#[trigger] cells[k]).wf() by {
        if exists|bx: int, byy: int|
            (bx == 0 || bx == 3 || bx == 6) && (byy == 0 || byy == 3 || byy == 6) && cells
                == block_cells(bx, byy) {
            let (bx, byy) = choose|bx: int, byy: int|
                (bx == 0 || bx == 3 || bx == 6) && (byy == 0 || byy == 3 || byy == 6) && cells
                    == block_cells(bx, byy);
            assert(0 <= k % 3 < 3 && 0 <= k / 3 < 3) by (nonlinear_arith)
                requires
                    0 <= k < 9,
            ;
            assert(cells[k] == Coordinate {
                x: (bx + k % 3) as usize,
                y: (byy + k / 3) as usize,
            });
        }
    }
}

/// One exclusion step over one unit: when exactly one of the 9 listed cells
/// still permits `digit`, that cell is assigned `digit` (a no-op when it is
/// already solved, in which case its value already is `digit`).
pub fn exclude_in_cells(board: &mut Board, cells: &Vec<Coordinate>, digit: u8)
    requires
        old(board).wf(),
        1 <= digit <= 9,
        cells@.len() == 9,
        forall|k: int| #![trigger cells@[k]] 0 <= k < 9 ==> cells@[k].wf(),
    ensures
        final(board).wf(),
        values_monotonic(*old(board), *final(board)),
        cand_shrinks(*old(board), *final(board)),
        wl_superset(*old(board), *final(board)),
        newly_solved_queued(*old(board), *final(board)),
        cand_changed_solved(*old(board), *final(board)),
        final(board).measure() <= old(board).measure(),
        admit_count(*old(board), cells@, digit) != 1 ==> *final(board) == *old(board),
        is_unit(cells@) ==> forall|s: spec_fn(int, int) -> u8|
            #![trigger consistent_with(s, *old(board))]
            valid_solution(s) && consistent_with(s, *old(board)) ==> consistent_with(
                s,
                *final(board),
            ),
        admit_count(*old(board), cells@, digit) == 1 ==> forall|k: int|
            #![trigger cells@[k]]
            0 <= k < 9 && admits(*old(board), cells@[k], digit) ==> {
                &&& final(board).value_at(cells@[k].x as int, cells@[k].y as int) == digit
                &&& unchanged_except(
                    *old(board),
                    *final(board),
                    cells@[k].x as int,
                    cells@[k].y as int,
                )
                &&& (old(board).value_at(cells@[k].x as int, cells@[k].y as int) != 0 ==> *final(board) == *old(board))
                &&& (old(board).value_at(cells@[k].x as int, cells@[k].y as int) == 0 ==> {
                    &&& final(board).cand_at(cells@[k].x as int, cells@[k].y as int) == mask_of(
                        digit,
                    )
                    &&& final(board).count() == old(board).count() + 1
                    &&& wl_after_push(old(board).worklist(), final(board).worklist(), cells@[k])
                })
            },
{
    let ghost b0 = *board;
    let mut count: usize = 0;
    let mut witness: usize = 0;
    let mut k: usize = 0;
    while k < 9
        invariant
            *board == b0,
            b0.wf(),
            1 <= digit <= 9,
            cells@.len() == 9,
            forall|j: int| #![trigger cells@[j]] 0 <= j < 9 ==> cells@[j].wf(),
            k <= 9,
            count <= k,
            count as int == admit_count(b0, cells@.take(k as int), digit),
            count > 0 ==> witness < k && admits(b0, cells@[witness as int], digit),
        decreases 9 - k,
    {
        let c = cells[k];
        if board.get_candidates(c.x, c.y).permits(digit) {
            count = count + 1;
            witness = k;
        }
        proof {
            assert(cells@.take(k + 1).drop_last() =~= cells@.take(k as int));
            assert(cells@.take(k + 1).last() == cells@[k as int]);
        }
        k = k + 1;
    }
    proof {
        assert(cells@.take(9) =~= cells@);
    }
    if count != 1 {
        proof {
            lemma_ops_refl(*board);
        }
    } else {
        let c = cells[witness];
        proof {
            if b0.value_at(c.x as int, c.y as int) != 0 {
                b0.lemma_solved_cell_singleton(c.x as int, c.y as int);
                lemma_mask_overlap_same_digit(b0.value_at(c.x as int, c.y as int), digit);
            }
        }
        board.assign(c, digit);
        proof {
            assert(board.value_at(c.x as int, c.y as int) == digit);
            assert forall|j: int|
                0 <= j < 9 && admits(b0, cells@[j], digit) implies cells@[j] == c by {
                if cells@[j] != c {
                    assert(j != witness as int);
                    if j < witness as int {
                        lemma_admit_count_two(b0, cells@, digit, j, witness as int);
                    } else {
                        lemma_admit_count_two(b0, cells@, digit, witness as int, j);
                    }
                }
            }
            if is_unit(cells@) {
                assert forall|s: spec_fn(int, int) -> u8|
                    valid_solution(s) && consistent_with(s, b0) implies consistent_with(
                    s,
                    *board,
                ) by {
                    lemma_solution_hits_lone_place(b0, cells@, digit, s, c);
                    assert(s(c.x as int, c.y as int) == digit);
                    if b0.value_at(c.x as int, c.y as int) != 0 {
                    } else {
                        assert forall|x2: int, y2: int| cell_in_range(x2, y2) implies (1
                            <= #[trigger] s(x2, y2) <= 9) && (board.value_at(x2, y2) != 0 ==> s(
                            x2,
                            y2,
                        ) == board.value_at(x2, y2)) && (board.cand_at(x2, y2) & mask_of(
                            s(x2, y2),
                        ) != 0) by {
                            if x2 == c.x as int && y2 == c.y as int {
                                lemma_mask_self_overlap(digit);
                            } else {
                                assert(board.value_at(x2, y2) == b0.value_at(x2, y2));
                                assert(board.cand_at(x2, y2) == b0.cand_at(x2, y2));
                            }
                        }
                    }
                }
            }
        }
    }
}

/// In a unit where `digit` has exactly one admitting cell, every valid
/// solution consistent with the board must place `digit` on that cell: the
/// unit does contain the digit somewhere, and wherever the solution puts
/// it, the board's candidate set there still permits it.
proof fn lemma_solution_hits_lone_place(
    b0: Board,
    cells: Seq<Coordinate>,
    digit: u8,
    s: spec_fn(int, int) -> u8,
    c: Coordinate,
)
    requires
        is_unit(cells),
        1 <= digit <= 9,
        valid_solution(s),
        consistent_with(s, b0),
        forall|j: int|
            #![trigger cells[j]]
            0 <= j < 9 && admits(b0, cells[j], digit) ==> cells[j] == c,
        c.wf(),
    ensures
        s(c.x as int, c.y as int) == digit,
{
    lemma_unit_cells_wf(cells);
    if exists|yy: int| 0 <= yy < 9 && cells == row_cells(yy) {
        let yy = choose|yy: int| 0 <= yy < 9 && cells == row_cells(yy);
        assert(row_has(s, yy, digit));
        let xx = choose|xx: int| #![trigger s(xx, yy)] 0 <= xx < 9 && s(xx, yy) == digit;
        assert(cells[xx] == (Coordinate { x: xx as usize, y: yy as usize }));
        assert(b0.cand_at(xx, yy) & mask_of(s(xx, yy)) != 0);
        assert(admits(b0, cells[xx], digit));
        assert(cells[xx] == c);
    } else if exists|xx: int| 0 <= xx < 9 && cells == col_cells(xx) {
        let xx = choose|xx: int| 0 <= xx < 9 && cells == col_cells(xx);
        assert(col_has(s, xx, digit));
        let yy = choose|yy: int| #![trigger s(xx, yy)] 0 <= yy < 9 && s(xx, yy) == digit;
        assert(cells[yy] == (Coordinate { x: xx as usize, y: yy as usize }));
        assert(b0.cand_at(xx, yy) & mask_of(s(xx, yy)) != 0);
        assert(admits(b0, cells[yy], digit));
        assert(cells[yy] == c);
    } else {
        let (bx, byy) = choose|bx: int, byy: int|
            (bx == 0 || bx == 3 || bx == 6) && (byy == 0 || byy == 3 || byy == 6) && cells
                == block_cells(bx, byy);
        assert(block_has(s, bx, byy, digit));
        let (i, j) = choose|i: int, j: int|
            #![trigger s(bx + j, byy + i)]
            0 <= i < 3 && 0 <= j < 3 && s(bx + j, byy + i) == digit;
        let k = 3 * i + j;
        assert(k % 3 == j && k / 3 == i) by (nonlinear_arith)
            requires
                k == 3 * i + j,
                0 <= i < 3,
                0 <= j < 3,
        ;
        assert(cells[k] == (Coordinate { x: (bx + j) as usize, y: (byy + i) as usize }));
        assert(b0.cand_at(bx + j, byy + i) & mask_of(s(bx + j, byy + i)) != 0);
        assert(admits(b0, cells[k], digit));
        assert(cells[k] == c);
    }
}

/// One full exclusion sweep: for every digit and every unit (each row,
/// each column, each 3x3 block), assigns the digit wherever it is the
/// unit's only remaining place. For every unit in which a digit had
/// exactly one place left at entry, that place is solved on exit: with
/// that digit, unless an earlier step of the sweep solved the cell first.
pub fn solve(board: &mut Board)
    requires
        old(board).wf(),
    ensures
        final(board).wf(),
        values_monotonic(*old(board), *final(board)),
        cand_shrinks(*old(board), *final(board)),
        wl_superset(*old(board), *final(board)),
        newly_solved_queued(*old(board), *final(board)),
        cand_changed_solved(*old(board), *final(board)),
        final(board).measure() <= old(board).measure(),
        forall|s: spec_fn(int, int) -> u8|
            #![trigger consistent_with(s, *old(board))]
            valid_solution(s) && consistent_with(s, *old(board)) ==> consistent_with(
                s,
                *final(board),
            ),
        forall|yy: int, dd: u8|
            #![trigger admit_count(*old(board), row_cells(yy), dd)]
            0 <= yy < 9 && 1 <= dd <= 9 && admit_count(*old(board), row_cells(yy), dd) == 1
                ==> lone_place_solved(*old(board), *final(board), row_cells(yy), dd),
        forall|xx: int, dd: u8|
            #![trigger admit_count(*old(board), col_cells(xx), dd)]
            0 <= xx < 9 && 1 <= dd <= 9 && admit_count(*old(board), col_cells(xx), dd) == 1
                ==> lone_place_solved(*old(board), *final(board), col_cells(xx), dd),
        forall|bxx: int, byy: int, dd: u8|
            #![trigger admit_count(*old(board), block_cells(bxx, byy), dd)]
            (bxx == 0 || bxx == 3 || bxx == 6) && (byy == 0 || byy == 3 || byy == 6) && 1 <= dd <= 9
                && admit_count(*old(board), block_cells(bxx, byy), dd) == 1 ==> lone_place_solved(
                *old(board),
                *final(board),
                block_cells(bxx, byy),
                dd,
            ),
{
    let ghost b0 = *board;
    proof {
        lemma_ops_refl(b0);
    }
    let mut digit: u8 = 1;
    while digit <= 9
        invariant
            1 <= digit <= 10,
            b0.wf(),
            board.wf(),
            values_monotonic(b0, *board),
            cand_shrinks(b0, *board),
            wl_superset(b0, *board),
            newly_solved_queued(b0, *board),
            cand_changed_solved(b0, *board),
            board.measure() <= b0.measure(),
            forall|s: spec_fn(int, int) -> u8|
                #![trigger consistent_with(s, b0)]
                valid_solution(s) && consistent_with(s, b0) ==> consistent_with(s, *board),
            forall|yy: int, dd: u8|
                #![trigger admit_count(b0, row_cells(yy), dd)]
                0 <= yy < 9 && 1 <= dd < digit && admit_count(b0, row_cells(yy), dd) == 1
                    ==> lone_place_solved(b0, *board, row_cells(yy), dd),
            forall|xx: int, dd: u8|
                #![trigger admit_count(b0, col_cells(xx), dd)]
                0 <= xx < 9 && 1 <= dd < digit && admit_count(b0, col_cells(xx), dd) == 1
                    ==> lone_place_solved(b0, *board, col_cells(xx), dd),
            forall|bxx: int, byy: int, dd: u8|
                #![trigger admit_count(b0, block_cells(bxx, byy), dd)]
                (bxx == 0 || bxx == 3 || bxx == 6) && (byy == 0 || byy == 3 || byy == 6) && 1 <= dd
                    < digit && admit_count(b0, block_cells(bxx, byy), dd) == 1
                    ==> lone_place_solved(b0, *board, block_cells(bxx, byy), dd),
        decreases 10 - digit,
    {
        let mut y: usize = 0;
        while y < 9
            invariant
                y <= 9,
                1 <= digit <= 9,
                b0.wf(),
                board.wf(),
                values_monotonic(b0, *board),
                cand_shrinks(b0, *board),
                wl_superset(b0, *board),
                newly_solved_queued(b0, *board),
                cand_changed_solved(b0, *board),
                board.measure() <= b0.measure(),
                forall|s: spec_fn(int, int) -> u8|
                    #![trigger consistent_with(s, b0)]
                    valid_solution(s) && consistent_with(s, b0) ==> consistent_with(s, *board),
                forall|yy: int, dd: u8|
                    #![trigger admit_count(b0, row_cells(yy), dd)]
                    0 <= yy < 9 && 1 <= dd < digit && admit_count(b0, row_cells(yy), dd) == 1
                        ==> lone_place_solved(b0, *board, row_cells(yy), dd),
                forall|xx: int, dd: u8|
                    #![trigger admit_count(b0, col_cells(xx), dd)]
                    0 <= xx < 9 && 1 <= dd < digit && admit_count(b0, col_cells(xx), dd) == 1
                        ==> lone_place_solved(b0, *board, col_cells(xx), dd),
                forall|bxx: int, byy: int, dd: u8|
                    #![trigger admit_count(b0, block_cells(bxx, byy), dd)]
                    (bxx == 0 || bxx == 3 || bxx == 6) && (byy == 0 || byy == 3 || byy == 6) && 1
                        <= dd < digit && admit_count(b0, block_cells(bxx, byy), dd) == 1
                        ==> lone_place_solved(b0, *board, block_cells(bxx, byy), dd),
                forall|yy: int|
                    #![trigger row_cells(yy)]
                    0 <= yy < y && admit_count(b0, row_cells(yy), digit) == 1
                        ==> lone_place_solved(b0, *board, row_cells(yy), digit),
            decreases 9 - y,
        {
            let mut cells: Vec<Coordinate> = Vec::new();
            let mut x: usize = 0;
            while x < 9
                invariant
                    y < 9,
                    x <= 9,
                    cells@.len() == x,
                    forall|j: int|
                        #![trigger cells@[j]]
                        0 <= j < x ==> cells@[j] == (Coordinate { x: j as usize, y: y as usize }),
                decreases 9 - x,
            {
                cells.push(Coordinate { x, y });
                x = x + 1;
            }
            proof {
                assert(cells@ =~= row_cells(y as int));
                lemma_unit_cells_wf(cells@);
            }
            let ghost b1 = *board;
            exclude_in_cells(board, &cells, digit);
            proof {
                lemma_sweep_step(b0, b1, *board, cells@, digit);
                assert(is_unit(cells@));
                assert forall|s: spec_fn(int, int) -> u8|
                    valid_solution(s) && consistent_with(s, b0) implies consistent_with(
                    s,
                    *board,
                ) by {
                    assert(consistent_with(s, b1));
                }
            }
            y = y + 1;
        }
        let mut x: usize = 0;
        while x < 9
            invariant
                x <= 9,
                1 <= digit <= 9,
                b0.wf(),
                board.wf(),
                values_monotonic(b0, *board),
                cand_shrinks(b0, *board),
                wl_superset(b0, *board),
                newly_solved_queued(b0, *board),
                cand_changed_solved(b0, *board),
                board.measure() <= b0.measure(),
                forall|s: spec_fn(int, int) -> u8|
                    #![trigger consistent_with(s, b0)]
                    valid_solution(s) && consistent_with(s, b0) ==> consistent_with(s, *board),
                forall|yy: int, dd: u8|
                    #![trigger admit_count(b0, row_cells(yy), dd)]
                    0 <= yy < 9 && 1 <= dd < digit && admit_count(b0, row_cells(yy), dd) == 1
                        ==> lone_place_solved(b0, *board, row_cells(yy), dd),
                forall|xx: int, dd: u8|
                    #![trigger admit_count(b0, col_cells(xx), dd)]
                    0 <= xx < 9 && 1 <= dd < digit && admit_count(b0, col_cells(xx), dd) == 1
                        ==> lone_place_solved(b0, *board, col_cells(xx), dd),
                forall|bxx: int, byy: int, dd: u8|
                    #![trigger admit_count(b0, block_cells(bxx, byy), dd)]
                    (bxx == 0 || bxx == 3 || bxx == 6) && (byy == 0 || byy == 3 || byy == 6) && 1
                        <= dd < digit && admit_count(b0, block_cells(bxx, byy), dd) == 1
                        ==> lone_place_solved(b0, *board, block_cells(bxx, byy), dd),
                forall|yy: int|
                    #![trigger row_cells(yy)]
                    0 <= yy < 9 && admit_count(b0, row_cells(yy), digit) == 1
                        ==> lone_place_solved(b0, *board, row_cells(yy), digit),
                forall|xx: int|
                    #![trigger col_cells(xx)]
                    0 <= xx < x && admit_count(b0, col_cells(xx), digit) == 1
                        ==> lone_place_solved(b0, *board, col_cells(xx), digit),
            decreases 9 - x,
        {
            let mut cells: Vec<Coordinate> = Vec::new();
            let mut yy: usize = 0;
            while yy < 9
                invariant
                    x < 9,
                    yy <= 9,
                    cells@.len() == yy,
                    forall|j: int|
                        #![trigger cells@[j]]
                        0 <= j < yy ==> cells@[j] == (Coordinate { x: x as usize, y: j as usize }),
                decreases 9 - yy,
            {
                cells.push(Coordinate { x, y: yy });
                yy = yy + 1;
            }
            proof {
                assert(cells@ =~= col_cells(x as int));
                lemma_unit_cells_wf(cells@);
            }
            let ghost b1 = *board;
            exclude_in_cells(board, &cells, digit);
            proof {
                lemma_sweep_step(b0, b1, *board, cells@, digit);
                assert(is_unit(cells@));
                assert forall|s: spec_fn(int, int) -> u8|
                    valid_solution(s) && consistent_with(s, b0) implies consistent_with(
                    s,
                    *board,
                ) by {
                    assert(consistent_with(s, b1));
                }
            }
            x = x + 1;
        }
        let mut by: usize = 0;
        while by < 9
            invariant
                by <= 9,
                by % 3 == 0,
                1 <= digit <= 9,
                b0.wf(),
                board.wf(),
                values_monotonic(b0, *board),
                cand_shrinks(b0, *board),
                wl_superset(b0, *board),
                newly_solved_queued(b0, *board),
                cand_changed_solved(b0, *board),
                board.measure() <= b0.measure(),
                forall|s: spec_fn(int, int) -> u8|
                    #![trigger consistent_with(s, b0)]
                    valid_solution(s) && consistent_with(s, b0) ==> consistent_with(s, *board),
                forall|yy: int, dd: u8|
                    #![trigger admit_count(b0, row_cells(yy), dd)]
                    0 <= yy < 9 && 1 <= dd < digit && admit_count(b0, row_cells(yy), dd) == 1
                        ==> lone_place_solved(b0, *board, row_cells(yy), dd),
                forall|xx: int, dd: u8|
                    #![trigger admit_count(b0, col_cells(xx), dd)]
                    0 <= xx < 9 && 1 <= dd < digit && admit_count(b0, col_cells(xx), dd) == 1
                        ==> lone_place_solved(b0, *board, col_cells(xx), dd),
                forall|bxx: int, byy: int, dd: u8|
                    #![trigger admit_count(b0, block_cells(bxx, byy), dd)]
                    (bxx == 0 || bxx == 3 || bxx == 6) && (byy == 0 || byy == 3 || byy == 6) && 1
                        <= dd < digit && admit_count(b0, block_cells(bxx, byy), dd) == 1
                        ==> lone_place_solved(b0, *board, block_cells(bxx, byy), dd),
                forall|yy: int|
                    #![trigger row_cells(yy)]
                    0 <= yy < 9 && admit_count(b0, row_cells(yy), digit) == 1
                        ==> lone_place_solved(b0, *board, row_cells(yy), digit),
                forall|xx: int|
                    #![trigger col_cells(xx)]
                    0 <= xx < 9 && admit_count(b0, col_cells(xx), digit) == 1
                        ==> lone_place_solved(b0, *board, col_cells(xx), digit),
                forall|bxx: int, byy: int|
                    #![trigger block_cells(bxx, byy)]
                    (bxx == 0 || bxx == 3 || bxx == 6) && (byy == 0 || byy == 3 || byy == 6) && byy
                        < by && admit_count(b0, block_cells(bxx, byy), digit) == 1
                        ==> lone_place_solved(b0, *board, block_cells(bxx, byy), digit),
            decreases 9 - by,
        {
            let mut bx: usize = 0;
            while bx < 9
                invariant
                    bx <= 9,
                    bx % 3 == 0,
                    by <= 6,
                    by % 3 == 0,
                    1 <= digit <= 9,
                    b0.wf(),
                    board.wf(),
                    values_monotonic(b0, *board),
                    cand_shrinks(b0, *board),
                    wl_superset(b0, *board),
                    newly_solved_queued(b0, *board),
                    cand_changed_solved(b0, *board),
                    board.measure() <= b0.measure(),
                    forall|s: spec_fn(int, int) -> u8|
                        #![trigger consistent_with(s, b0)]
                        valid_solution(s) && consistent_with(s, b0) ==> consistent_with(
                            s,
                            *board,
                        ),
                    forall|yy: int, dd: u8|
                        #![trigger admit_count(b0, row_cells(yy), dd)]
                        0 <= yy < 9 && 1 <= dd < digit && admit_count(b0, row_cells(yy), dd) == 1
                            ==> lone_place_solved(b0, *board, row_cells(yy), dd),
                    forall|xx: int, dd: u8|
                        #![trigger admit_count(b0, col_cells(xx), dd)]
                        0 <= xx < 9 && 1 <= dd < digit && admit_count(b0, col_cells(xx), dd) == 1
                            ==> lone_place_solved(b0, *board, col_cells(xx), dd),
                    forall|bxx: int, byy: int, dd: u8|
                        #![trigger admit_count(b0, block_cells(bxx, byy), dd)]
                        (bxx == 0 || bxx == 3 || bxx == 6) && (byy == 0 || byy == 3 || byy == 6)
                            && 1 <= dd < digit && admit_count(b0, block_cells(bxx, byy), dd) == 1
                            ==> lone_place_solved(b0, *board, block_cells(bxx, byy), dd),
                    forall|yy: int|
                        #![trigger row_cells(yy)]
                        0 <= yy < 9 && admit_count(b0, row_cells(yy), digit) == 1
                            ==> lone_place_solved(b0, *board, row_cells(yy), digit),
                    forall|xx: int|
                        #![trigger col_cells(xx)]
                        0 <= xx < 9 && admit_count(b0, col_cells(xx), digit) == 1
                            ==> lone_place_solved(b0, *board, col_cells(xx), digit),
                    forall|bxx: int, byy: int|
                        #![trigger block_cells(bxx, byy)]
                        (bxx == 0 || bxx == 3 || bxx == 6) && (byy == 0 || byy == 3 || byy == 6)
                            && (byy < by || (byy == by && bxx < bx)) && admit_count(
                            b0,
                            block_cells(bxx, byy),
                            digit,
                        ) == 1 ==> lone_place_solved(b0, *board, block_cells(bxx, byy), digit),
                decreases 9 - bx,
            {
                let mut cells: Vec<Coordinate> = Vec::new();
                let mut yy: usize = by;
                while yy < by + 3
                    invariant
                        bx <= 6,
                        by <= 6,
                        by <= yy <= by + 3,
                        cells@.len() == 3 * (yy - by),
                        forall|j: int|
                            #![trigger cells@[j]]
                            0 <= j < cells@.len() ==> cells@[j] == (Coordinate {
                                x: (bx as int + j % 3) as usize,
                                y: (by as int + j / 3) as usize,
                            }),
                    decreases by + 3 - yy,
                {
                    let mut xx: usize = bx;
                    while xx < bx + 3
                        invariant
                            bx <= 6,
                            by <= 6,
                            by <= yy < by + 3,
                            bx <= xx <= bx + 3,
                            cells@.len() == 3 * (yy - by) + (xx - bx),
                            forall|j: int|
                                #![trigger cells@[j]]
                                0 <= j < cells@.len() ==> cells@[j] == (Coordinate {
                                    x: (bx as int + j % 3) as usize,
                                    y: (by as int + j / 3) as usize,
                                }),
                        decreases bx + 3 - xx,
                    {
                        proof {
                            let k = cells@.len() as int;
                            assert(k % 3 == xx - bx && k / 3 == yy - by) by (nonlinear_arith)
                                requires
                                    k == 3 * (yy - by) + (xx - bx),
                                    bx <= xx < bx + 3,
                                    by <= yy,
                            ;
                        }
                        cells.push(Coordinate { x: xx, y: yy });
                        xx = xx + 1;
                    }
                    yy = yy + 1;
                }
                proof {
                    assert forall|j: int| 0 <= j < 9 implies #[trigger] cells@[j] == block_cells(
                        bx as int,
                        by as int,
                    )[j] by {
                        assert(cells@[j] == (Coordinate {
                            x: (bx as int + j % 3) as usize,
                            y: (by as int + j / 3) as usize,
                        }));
                    }
                    assert(cells@ =~= block_cells(bx as int, by as int));
                    lemma_unit_cells_wf(cells@);
                }
                let ghost b1 = *board;
                exclude_in_cells(board, &cells, digit);
                proof {
                    lemma_sweep_step(b0, b1, *board, cells@, digit);
                    assert(is_unit(cells@));
                    assert forall|s: spec_fn(int, int) -> u8|
                        valid_solution(s) && consistent_with(s, b0) implies consistent_with(
                        s,
                        *board,
                    ) by {
                        assert(consistent_with(s, b1));
                    }
                }
                bx = bx + 3;
            }
            by = by + 3;
        }
        digit = digit + 1;
    }
}

/// One exclusion step, seen from the sweep's base state: the relations
/// compose, the just-processed unit gains its lone-place claim, and every
/// unit claimed before keeps its own.
proof fn lemma_sweep_step(b0: Board, b1: Board, b2: Board, cells: Seq<Coordinate>, digit: u8)
    requires
        1 <= digit <= 9,
        cells.len() == 9,
        forall|k: int| #![trigger cells[k]] 0 <= k < 9 ==> cells[k].wf(),
        values_monotonic(b0, b1),
        cand_shrinks(b0, b1),
        wl_superset(b0, b1),
        newly_solved_queued(b0, b1),
        cand_changed_solved(b0, b1),
        values_monotonic(b1, b2),
        cand_shrinks(b1, b2),
        wl_superset(b1, b2),
        newly_solved_queued(b1, b2),
        cand_changed_solved(b1, b2),
        admit_count(b1, cells, digit) == 1 ==> forall|k: int|
            #![trigger cells[k]]
            0 <= k < 9 && admits(b1, cells[k], digit) ==> b2.value_at(
                cells[k].x as int,
                cells[k].y as int,
            ) == digit,
    ensures
        values_monotonic(b0, b2),
        cand_shrinks(b0, b2),
        wl_superset(b0, b2),
        newly_solved_queued(b0, b2),
        cand_changed_solved(b0, b2),
        admit_count(b0, cells, digit) == 1 ==> lone_place_solved(b0, b2, cells, digit),
        forall|other: Seq<Coordinate>, dd: u8|
            #![trigger lone_place_solved(b0, b1, other, dd)]
            lone_place_solved(b0, b1, other, dd) && (forall|k: int|
                #![trigger other[k]]
                0 <= k < other.len() ==> other[k].wf()) ==> lone_place_solved(b0, b2, other, dd),
{
    lemma_ops_trans(b0, b1, b2);
    lemma_changed_solved_trans(b0, b1, b2);
    if admit_count(b0, cells, digit) == 1 {
        lemma_lone_place(b0, b1, b2, cells, digit);
    }
    assert forall|other: Seq<Coordinate>, dd: u8|
        lone_place_solved(b0, b1, other, dd) && (forall|k: int|
            #![trigger other[k]]
            0 <= k < other.len() ==> other[k].wf()) implies #[trigger] lone_place_solved(
        b0,
        b2,
        other,
        dd,
    ) by {
        lemma_lone_place_persists(b0, b1, b2, other, dd);
    }
}

} // verus!
