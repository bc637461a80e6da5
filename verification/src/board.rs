//! The board: the 9x9 grid of resolved values, the parallel grid of
//! candidate sets, the count of solved cells, and the worklist of
//! coordinates whose recent change still has unpropagated consequences.
//!
//! All mutation goes through `update_cell`, `assign` and `eliminate`, which
//! keep the board's invariants: the solved count equals the number of
//! non-zero values, a solved cell's candidate set is exactly the singleton
//! for its value, a solved cell is never reassigned, and the worklist holds
//! each coordinate at most once.

use vstd::prelude::*;

use crate::candidates::Candidates;
use crate::cell::{Cell, Contents};
use crate::coordinate::{cell_in_range, Coordinate};
use crate::sudoku_cell_bitmask::{digit_of, mask_of, ALL_CANDIDATES};
use crate::sudoku_cell_bitmask::{lemma_digit_of_range, lemma_mask_of_digit};

verus! {

/// How many of a row-major sequence of cell values are solved (non-zero).
pub open spec fn count_solved(s: Seq<u8>) -> int
    decreases s.len(),
{
    if s.len() == 0 {
        0
    } else {
        count_solved(s.drop_last()) + if s.last() != 0 {
            1int
        } else {
            0int
        }
    }
}

/// The sum of all candidate masks, read as integers. Eliminating a digit
/// strictly lowers it, which makes it the heart of the solver's termination
/// measure.
pub open spec fn mask_total(s: Seq<Candidates>) -> int
    decreases s.len(),
{
    if s.len() == 0 {
        0
    } else {
        mask_total(s.drop_last()) + s.last().mask() as int
    }
}

proof fn lemma_count_solved_le_len(s: Seq<u8>)
    ensures
        0 <= count_solved(s) <= s.len(),
    decreases s.len(),
{
    if s.len() > 0 {
        lemma_count_solved_le_len(s.drop_last());
    }
}

proof fn lemma_count_solved_update(s: Seq<u8>, i: int, v: u8)
    requires
        0 <= i < s.len(),
    ensures
        count_solved(s.update(i, v)) == count_solved(s) - (if s[i] != 0 {
            1int
        } else {
            0int
        }) + (if v != 0 {
            1int
        } else {
            0int
        }),
    decreases s.len(),
{
    let t = s.update(i, v);
    if i == s.len() - 1 {
        assert(t.drop_last() =~= s.drop_last());
    } else {
        assert(t.drop_last() =~= s.drop_last().update(i, v));
        lemma_count_solved_update(s.drop_last(), i, v);
    }
}

proof fn lemma_count_solved_lt_len(s: Seq<u8>, i: int)
    requires
        0 <= i < s.len(),
        s[i] == 0,
    ensures
        0 <= count_solved(s) < s.len(),
{
    lemma_count_solved_update(s, i, 1);
    lemma_count_solved_le_len(s.update(i, 1));
    lemma_count_solved_le_len(s);
}

proof fn lemma_mask_total_nonneg(s: Seq<Candidates>)
    ensures
        mask_total(s) >= 0,
    decreases s.len(),
{
    if s.len() > 0 {
        lemma_mask_total_nonneg(s.drop_last());
    }
}

proof fn lemma_mask_total_update(s: Seq<Candidates>, i: int, c: Candidates)
    requires
        0 <= i < s.len(),
    ensures
        mask_total(s.update(i, c)) == mask_total(s) - s[i].mask() + c.mask(),
    decreases s.len(),
{
    let t = s.update(i, c);
    if i == s.len() - 1 {
        assert(t.drop_last() =~= s.drop_last());
    } else {
        assert(t.drop_last() =~= s.drop_last().update(i, c));
        lemma_mask_total_update(s.drop_last(), i, c);
    }
}

/// No coordinate appears twice: duplicate pushes are suppressed, so the
/// worklist holds each coordinate at most once.
pub open spec fn wl_distinct(s: Seq<Coordinate>) -> bool {
    forall|k1: int, k2: int|
        #![trigger s[k1], s[k2]]
        0 <= k1 < k2 < s.len() ==> s[k1] != s[k2]
}

/// A worklist is well formed when every coordinate lies on the board and no
/// coordinate appears twice.
spec fn wl_wf(s: Seq<Coordinate>) -> bool {
    &&& forall|k: int| #![trigger s[k]] 0 <= k < s.len() ==> s[k].wf()
    &&& wl_distinct(s)
}

/// How a worklist changes when a coordinate is offered to it: appended when
/// absent, left alone when already queued (duplicate pushes are suppressed).
pub open spec fn wl_after_push(wl0: Seq<Coordinate>, wl1: Seq<Coordinate>, c: Coordinate) -> bool {
    if wl0.contains(c) {
        wl1 == wl0
    } else {
        wl1 == wl0.push(c)
    }
}

/// Solved cells keep their values: every cell solved in `a` holds the same
/// digit in `b`. Every board operation guarantees this from old to new
/// state.
pub open spec fn values_monotonic(a: Board, b: Board) -> bool {
    forall|x: int, y: int|
        #![trigger a.value_at(x, y)]
        #![trigger b.value_at(x, y)]
        cell_in_range(x, y) && a.value_at(x, y) != 0 ==> b.value_at(x, y) == a.value_at(x, y)
}

/// Candidate sets only shrink: from `a` to `b`, no cell's set regains a
/// digit. Every operation of the solving loop guarantees this.
pub open spec fn cand_shrinks(a: Board, b: Board) -> bool {
    forall|x: int, y: int|
        #![trigger a.cand_at(x, y)]
        #![trigger b.cand_at(x, y)]
        cell_in_range(x, y) ==> b.cand_at(x, y) & !a.cand_at(x, y) == 0
}

/// Every coordinate queued in `a` is still queued in `b`: nothing but
/// `pop_work` ever removes a worklist entry.
pub open spec fn wl_superset(a: Board, b: Board) -> bool {
    forall|c: Coordinate|
        #![trigger a.worklist().contains(c)]
        #![trigger b.worklist().contains(c)]
        a.worklist().contains(c) ==> b.worklist().contains(c)
}

/// Every cell solved in `b` but not yet in `a` is queued in `b`: a fresh
/// assignment never goes unexamined.
pub open spec fn newly_solved_queued(a: Board, b: Board) -> bool {
    forall|x: int, y: int|
        #![trigger b.value_at(x, y)]
        cell_in_range(x, y) && a.value_at(x, y) == 0 && b.value_at(x, y) != 0
            ==> b.worklist().contains(Coordinate { x: x as usize, y: y as usize })
}

/// A cell whose candidate set changed from `a` to `b` is solved in `b`:
/// true of the operations that only collapse sets onto assigned digits
/// (`assign` and the sweeps built on it), not of `eliminate`.
pub open spec fn cand_changed_solved(a: Board, b: Board) -> bool {
    forall|x: int, y: int|
        #![trigger b.cand_at(x, y)]
        cell_in_range(x, y) && b.cand_at(x, y) != a.cand_at(x, y) ==> b.value_at(x, y) != 0
}

/// A changed-set-is-solved step composed onto another, later one that keeps
/// solved values, still has every changed set solved.
pub proof fn lemma_changed_solved_trans(a: Board, b: Board, c: Board)
    requires
        cand_changed_solved(a, b),
        cand_changed_solved(b, c),
        values_monotonic(b, c),
    ensures
        cand_changed_solved(a, c),
{
    assert forall|x: int, y: int|
        cell_in_range(x, y) && #[trigger] c.cand_at(x, y) != a.cand_at(x, y) implies c.value_at(
        x,
        y,
    ) != 0 by {
        if c.cand_at(x, y) == b.cand_at(x, y) {
            assert(b.value_at(x, y) != 0);
            assert(c.value_at(x, y) == b.value_at(x, y));
        }
    }
}

/// Every cell other than `(x0, y0)` has the same value and candidate set in
/// `a` and `b`.
pub open spec fn unchanged_except(a: Board, b: Board, x0: int, y0: int) -> bool {
    forall|x: int, y: int|
        #![trigger b.value_at(x, y)]
        #![trigger b.cand_at(x, y)]
        cell_in_range(x, y) && !(x == x0 && y == y0) ==> b.value_at(x, y) == a.value_at(x, y)
            && b.cand_at(x, y) == a.cand_at(x, y)
}

/// Every cell has the same value and candidate set in `a` and `b`.
pub open spec fn same_cells(a: Board, b: Board) -> bool {
    forall|x: int, y: int|
        #![trigger b.value_at(x, y)]
        #![trigger b.cand_at(x, y)]
        cell_in_range(x, y) ==> b.value_at(x, y) == a.value_at(x, y) && b.cand_at(x, y) == a.cand_at(
            x,
            y,
        )
}

/// The number of solved cells among the first `n` cells of `b`, in
/// row-major order: the public form of the solved-cell count.
pub open spec fn num_solved(b: Board, n: int) -> int
    decreases n,
{
    if n <= 0 {
        0
    } else {
        num_solved(b, n - 1) + if b.value_at((n - 1) % 9, (n - 1) / 9) != 0 {
            1int
        } else {
            0int
        }
    }
}

/// The input value supplied for column `x`, row `y` of the initial grid.
pub open spec fn given_val(raw: Seq<Vec<i32>>, x: int, y: int) -> i32 {
    raw[y]@[x]
}

/// Whether the initial grid supplies a digit (a given) at column `x`,
/// row `y`; 0 and out-of-range values count as blank.
pub open spec fn is_given(raw: Seq<Vec<i32>>, x: int, y: int) -> bool {
    1 <= given_val(raw, x, y) <= 9
}

/// The cell at column `x`, row `y` reflects the initial grid: a given is a
/// solved cell with the singleton candidate set, anything else is blank
/// with the full set.
pub open spec fn seeded(b: Board, raw: Seq<Vec<i32>>, x: int, y: int) -> bool {
    if is_given(raw, x, y) {
        b.value_at(x, y) == given_val(raw, x, y) as u8 && b.cand_at(x, y) == mask_of(
            given_val(raw, x, y) as u8,
        )
    } else {
        b.value_at(x, y) == 0 && b.cand_at(x, y) == ALL_CANDIDATES
    }
}

/// The cell at column `x`, row `y` is still in its initial blank state.
spec fn unseeded(b: Board, x: int, y: int) -> bool {
    b.value_at(x, y) == 0 && b.cand_at(x, y) == ALL_CANDIDATES
}

proof fn lemma_push_contains(s: Seq<Coordinate>, c: Coordinate, d: Coordinate)
    ensures
        s.push(c).contains(d) <==> (s.contains(d) || d == c),
{
    if s.push(c).contains(d) {
        let k = choose|k: int| 0 <= k < s.push(c).len() && s.push(c)[k] == d;
        if k < s.len() {
            assert(s[k] == d);
        }
    }
    if s.contains(d) {
        let k = choose|k: int| 0 <= k < s.len() && s[k] == d;
        assert(s.push(c)[k] == d);
    }
    if d == c {
        assert(s.push(c)[s.len() as int] == d);
    }
}

/// The 9x9 board: values, candidate sets, solved-cell count and worklist.
pub struct Board {
    values: Vec<u8>,
    candidates: Vec<Candidates>,
    solved_count: u8,
    fresh_coordinates: Vec<Coordinate>,
}

impl Board {
    /// The resolved value of the cell in column `x`, row `y`: 0 when the
    /// cell is not solved yet.
    pub closed spec fn value_at(self, x: int, y: int) -> u8 {
        self.values@[y * 9 + x]
    }

    /// The candidate-set mask of the cell in column `x`, row `y`.
    pub closed spec fn cand_at(self, x: int, y: int) -> u16 {
        self.candidates@[y * 9 + x].mask()
    }

    /// The solved-cell count the board tracks.
    pub closed spec fn count(self) -> int {
        self.solved_count as int
    }

    /// The worklist of coordinates whose consequences are not fully
    /// propagated yet, oldest first.
    pub closed spec fn worklist(self) -> Seq<Coordinate> {
        self.fresh_coordinates@
    }

    /// The board's invariants: both grids have 81 cells; every value is a
    /// digit 0-9 and every mask uses only the 9 digit bits; a solved cell's
    /// candidate set is exactly the singleton for its value; the tracked
    /// count equals the number of solved cells; and the worklist holds only
    /// on-board coordinates, each at most once.
    pub closed spec fn wf(self) -> bool {
        &&& self.values@.len() == 81
        &&& self.candidates@.len() == 81
        &&& forall|i: int| #![trigger self.values@[i]] 0 <= i < 81 ==> self.values@[i] <= 9
        &&& forall|i: int| #![trigger self.candidates@[i]] 0 <= i < 81 ==> self.candidates@[i].wf()
        &&& forall|i: int|
            #![trigger self.values@[i]]
            0 <= i < 81 && self.values@[i] != 0 ==> self.candidates@[i].mask() == mask_of(
                self.values@[i],
            )
        &&& self.solved_count as int == count_solved(self.values@)
        &&& wl_wf(self.fresh_coordinates@)
    }

    /// The solver's termination measure: it never grows under `assign`,
    /// `eliminate` or `update_cell`, and popping the worklist lowers it by
    /// one, so the propagation loop must stop.
    pub closed spec fn measure(self) -> int {
        512 * (81 - self.solved_count as int) + mask_total(self.candidates@)
            + self.fresh_coordinates@.len()
    }

    /// The measure of a well-formed board is never negative.
    pub proof fn lemma_measure_nonneg(self)
        requires
            self.wf(),
        ensures
            self.measure() >= 0,
    {
        lemma_count_solved_le_len(self.values@);
        lemma_mask_total_nonneg(self.candidates@);
    }

    /// Every candidate set of a well-formed board uses only the 9 digit
    /// bits.
    pub proof fn lemma_cand_wf(self, x: int, y: int)
        requires
            self.wf(),
            cell_in_range(x, y),
        ensures
            crate::sudoku_cell_bitmask::mask_wf(self.cand_at(x, y)),
    {
    }

    /// The worklist of a well-formed board holds each coordinate at most
    /// once.
    pub proof fn lemma_worklist_distinct(self)
        requires
            self.wf(),
        ensures
            wl_distinct(self.worklist()),
    {
    }

    /// A well-formed board has between 0 and 81 solved cells.
    pub proof fn lemma_count_bound(self)
        requires
            self.wf(),
        ensures
            0 <= self.count() <= 81,
    {
        lemma_count_solved_le_len(self.values@);
    }

    /// The tracked solved count is the number of solved cells: the count
    /// invariant, stated over the public per-cell view.
    pub proof fn lemma_solved_count_consistent(self)
        requires
            self.wf(),
        ensures
            self.count() == num_solved(self, 81),
    {
        self.lemma_num_solved_eq(81);
        assert(self.values@.take(81) =~= self.values@);
    }

    proof fn lemma_num_solved_eq(self, n: int)
        requires
            self.wf(),
            0 <= n <= 81,
        ensures
            num_solved(self, n) == count_solved(self.values@.take(n)),
        decreases n,
    {
        if n > 0 {
            self.lemma_num_solved_eq(n - 1);
            assert(self.values@.take(n).drop_last() =~= self.values@.take(n - 1));
            assert(self.value_at((n - 1) % 9, (n - 1) / 9) == self.values@[((n - 1) / 9) * 9 + (n
                - 1) % 9]);
            assert(((n - 1) / 9) * 9 + (n - 1) % 9 == n - 1) by (nonlinear_arith)
                requires
                    0 < n <= 81,
            ;
        }
    }

    /// A solved cell's value is a digit 1-9 and its candidate set is
    /// exactly the singleton for that value: the consistency invariant,
    /// stated over the public per-cell view.
    pub proof fn lemma_solved_cell_singleton(self, x: int, y: int)
        requires
            self.wf(),
            cell_in_range(x, y),
            self.value_at(x, y) != 0,
        ensures
            1 <= self.value_at(x, y) <= 9,
            self.cand_at(x, y) == mask_of(self.value_at(x, y)),
    {
    }

    /// Builds the board from the 9x9 grid of input values: every in-range
    /// given becomes a solved cell with the singleton candidate set,
    /// counted and queued for propagation; every other cell starts blank
    /// with the full candidate set and is not queued, since an unsolved
    /// cell has nothing to propagate yet.
    pub fn new(raw_values: Vec<Vec<i32>>) -> (r: Board)
        requires
            raw_values@.len() == 9,
            forall|i: int| #![trigger raw_values@[i]] 0 <= i < 9 ==> raw_values@[i]@.len() == 9,
        ensures
            r.wf(),
            wl_distinct(r.worklist()),
            forall|x: int, y: int|
                #![trigger seeded(r, raw_values@, x, y)]
                cell_in_range(x, y) ==> seeded(r, raw_values@, x, y),
            forall|c: Coordinate|
                #![trigger r.worklist().contains(c)]
                r.worklist().contains(c) <==> (c.wf() && is_given(
                    raw_values@,
                    c.x as int,
                    c.y as int,
                )),
    {
        let mut values: Vec<u8> = Vec::new();
        let mut candidates: Vec<Candidates> = Vec::new();
        let mut k: usize = 0;
        while k < 81
            invariant
                k <= 81,
                values@.len() == k,
                candidates@.len() == k,
                forall|i: int| #![trigger values@[i]] 0 <= i < k ==> values@[i] == 0,
                forall|i: int|
                    #![trigger candidates@[i]]
                    0 <= i < k ==> candidates@[i].mask() == ALL_CANDIDATES && candidates@[i].wf(),
                count_solved(values@) == 0,
            decreases 81 - k,
        {
            let ghost vprev = values@;
            values.push(0);
            candidates.push(Candidates::new_default());
            proof {
                assert(values@.drop_last() =~= vprev);
            }
            k = k + 1;
        }
        let mut board = Board { values, candidates, solved_count: 0, fresh_coordinates: Vec::new() };
        let mut y: usize = 0;
        while y < 9
            invariant
                y <= 9,
                raw_values@.len() == 9,
                forall|i: int| #![trigger raw_values@[i]] 0 <= i < 9 ==> raw_values@[i]@.len() == 9,
                board.wf(),
                forall|cx: int, cy: int|
                    #![trigger seeded(board, raw_values@, cx, cy)]
                    cell_in_range(cx, cy) && cy < y ==> seeded(board, raw_values@, cx, cy),
                forall|cx: int, cy: int|
                    #![trigger unseeded(board, cx, cy)]
                    cell_in_range(cx, cy) && cy >= y ==> unseeded(board, cx, cy),
                forall|c: Coordinate|
                    #![trigger board.worklist().contains(c)]
                    board.worklist().contains(c) <==> (c.wf() && (c.y as int) < y && is_given(
                        raw_values@,
                        c.x as int,
                        c.y as int,
                    )),
            decreases 9 - y,
        {
            let mut x: usize = 0;
            while x < 9
                invariant
                    y < 9,
                    x <= 9,
                    raw_values@.len() == 9,
                    forall|i: int|
                        #![trigger raw_values@[i]]
                        0 <= i < 9 ==> raw_values@[i]@.len() == 9,
                    board.wf(),
                    forall|cx: int, cy: int|
                        #![trigger seeded(board, raw_values@, cx, cy)]
                        cell_in_range(cx, cy) && (cy < y || (cy == y && cx < x)) ==> seeded(
                            board,
                            raw_values@,
                            cx,
                            cy,
                        ),
                    forall|cx: int, cy: int|
                        #![trigger unseeded(board, cx, cy)]
                        cell_in_range(cx, cy) && (cy > y || (cy == y && cx >= x)) ==> unseeded(
                            board,
                            cx,
                            cy,
                        ),
                    forall|c: Coordinate|
                        #![trigger board.worklist().contains(c)]
                        board.worklist().contains(c) <==> (c.wf() && ((c.y as int) < y || ((
                        c.y as int) == y && (c.x as int) < x)) && is_given(
                            raw_values@,
                            c.x as int,
                            c.y as int,
                        )),
                decreases 9 - x,
            {
                let gv = raw_values[y][x];
                let v: u8 = if 1 <= gv && gv <= 9 {
                    gv as u8
                } else {
                    0
                };
                let cand = Candidates::new(v);
                let cell = Cell::new(cand);
                let coordinate = Coordinate { x, y };
                let ghost prev = board;
                proof {
                    assert(unseeded(prev, x as int, y as int));
                    if 1 <= v <= 9 {
                        lemma_mask_of_digit(v);
                    }
                }
                board.update_cell(coordinate, cell);
                proof {
                    let raw = raw_values@;
                    assert(seeded(board, raw, x as int, y as int));
                    assert forall|cx: int, cy: int|
                        cell_in_range(cx, cy) && (cy < y || (cy == y && cx < x
                            + 1)) implies seeded(board, raw, cx, cy) by {
                        if cx == x && cy == y {
                        } else {
                            assert(seeded(prev, raw, cx, cy));
                            assert(board.value_at(cx, cy) == prev.value_at(cx, cy));
                            assert(board.cand_at(cx, cy) == prev.cand_at(cx, cy));
                        }
                    }
                    assert forall|cx: int, cy: int|
                        cell_in_range(cx, cy) && (cy > y || (cy == y && cx >= x
                            + 1)) implies unseeded(board, cx, cy) by {
                        assert(unseeded(prev, cx, cy));
                        assert(board.value_at(cx, cy) == prev.value_at(cx, cy));
                        assert(board.cand_at(cx, cy) == prev.cand_at(cx, cy));
                    }
                    assert forall|c: Coordinate|
                        board.worklist().contains(c) <==> (c.wf() && ((c.y as int) < y || ((
                        c.y as int) == y && (c.x as int) < x + 1)) && is_given(
                            raw,
                            c.x as int,
                            c.y as int,
                        )) by {
                        if is_given(raw, x as int, y as int) {
                            assert(!prev.worklist().contains(coordinate));
                            assert(board.worklist() == prev.worklist().push(coordinate));
                            lemma_push_contains(prev.worklist(), coordinate, c);
                        } else {
                            assert(board.worklist() == prev.worklist());
                        }
                        if c.wf() && (c.y as int) == y && (c.x as int) == x {
                            assert(c == coordinate);
                        }
                    }
                }
                x = x + 1;
            }
            y = y + 1;
        }
        board
    }

    /// The resolved value of the cell in column `x`, row `y` (0 when
    /// unsolved).
    pub fn get_value(&self, x: usize, y: usize) -> (r: u8)
        requires
            self.wf(),
            x < 9,
            y < 9,
        ensures
            r == self.value_at(x as int, y as int),
    {
        self.values[y * 9 + x]
    }

    /// The candidate set of the cell in column `x`, row `y`.
    pub fn get_candidates(&self, x: usize, y: usize) -> (r: Candidates)
        requires
            self.wf(),
            x < 9,
            y < 9,
        ensures
            r.mask() == self.cand_at(x as int, y as int),
    {
        self.candidates[y * 9 + x]
    }

    /// How many cells are solved so far.
    pub fn solved_count(&self) -> (r: u8)
        ensures
            r as int == self.count(),
    {
        self.solved_count
    }

    /// Whether every cell of the board is solved.
    pub fn is_solved(&self) -> (r: bool)
        ensures
            r == (self.count() >= 81),
    {
        self.solved_count >= 81
    }

    /// Removes and returns the most recently queued coordinate, or `None`
    /// when the worklist is empty. The grids and the count are untouched,
    /// and the measure drops by exactly one on a successful pop.
    pub fn pop_work(&mut self) -> (r: Option<Coordinate>)
        requires
            old(self).wf(),
        ensures
            final(self).wf(),
            wl_distinct(final(self).worklist()),
            same_cells(*old(self), *final(self)),
            values_monotonic(*old(self), *final(self)),
            cand_shrinks(*old(self), *final(self)),
            newly_solved_queued(*old(self), *final(self)),
            final(self).count() == old(self).count(),
            r is None ==> old(self).worklist().len() == 0 && final(self).worklist() == old(self).worklist() && final(self).measure() == old(self).measure(),
            r is Some ==> old(self).worklist().len() > 0 && r->Some_0 == old(self).worklist().last() && r->Some_0.wf() && final(self).worklist() == old(self).worklist().drop_last() && final(self).measure() == old(self).measure() - 1,
    {
        let r = self.fresh_coordinates.pop();
        proof {
            if old(self).fresh_coordinates@.len() > 0 {
                assert(old(self).fresh_coordinates@.subrange(
                    0,
                    old(self).fresh_coordinates@.len() - 1,
                ) =~= old(self).fresh_coordinates@.drop_last());
            }
            lemma_same_cells_monotonic(*old(self), *self);
            assert forall|x: int, y: int| cell_in_range(x, y) implies #[trigger] self.cand_at(x, y)
                & !old(self).cand_at(x, y) == 0 by {
                assert(self.cand_at(x, y) == old(self).cand_at(x, y));
                crate::sudoku_cell_bitmask::lemma_mask_shrink_refl(old(self).cand_at(x, y));
            }
            assert forall|x: int, y: int|
                cell_in_range(x, y) && old(self).value_at(x, y) == 0 && #[trigger] self.value_at(
                    x,
                    y,
                ) != 0 implies self.worklist().contains(
                Coordinate { x: x as usize, y: y as usize },
            ) by {
                assert(self.value_at(x, y) == old(self).value_at(x, y));
            }
        }
        r
    }

    /// Queues a coordinate, unless it is already queued.
    fn push_fresh(&mut self, coordinate: Coordinate)
        requires
            coordinate.wf(),
            wl_wf(old(self).fresh_coordinates@),
        ensures
            final(self).values == old(self).values,
            final(self).candidates == old(self).candidates,
            final(self).solved_count == old(self).solved_count,
            wl_after_push(
                old(self).fresh_coordinates@,
                final(self).fresh_coordinates@,
                coordinate,
            ),
            wl_wf(final(self).fresh_coordinates@),
    {
        if !contains_coordinate(&self.fresh_coordinates, coordinate) {
            self.fresh_coordinates.push(coordinate);
            proof {
                let wl0 = old(self).fresh_coordinates@;
                let wl1 = self.fresh_coordinates@;
                assert forall|k1: int, k2: int|
                    #![trigger wl1[k1], wl1[k2]]
                    0 <= k1 < k2 < wl1.len() implies wl1[k1] != wl1[k2] by {
                    if k2 == wl1.len() - 1 {
                        assert(!wl0.contains(coordinate));
                        assert(wl0[k1] != coordinate);
                    }
                }
            }
        }
    }

    /// Assigns `digit` to the cell at `coordinate`: records the value,
    /// collapses its candidate set to the singleton, counts it as solved
    /// and queues the coordinate for propagation. A no-op when the cell is
    /// already solved: assignment is monotonic.
    pub fn assign(&mut self, coordinate: Coordinate, digit: u8)
        requires
            old(self).wf(),
            coordinate.wf(),
            1 <= digit <= 9,
        ensures
            final(self).wf(),
            values_monotonic(*old(self), *final(self)),
            wl_superset(*old(self), *final(self)),
            newly_solved_queued(*old(self), *final(self)),
            cand_changed_solved(*old(self), *final(self)),
            wl_distinct(final(self).worklist()),
            final(self).measure() <= old(self).measure(),
            old(self).cand_at(coordinate.x as int, coordinate.y as int) & mask_of(digit) != 0
                ==> cand_shrinks(*old(self), *final(self)),
            old(self).value_at(coordinate.x as int, coordinate.y as int) != 0 ==> *final(self)
                == *old(self),
            old(self).value_at(coordinate.x as int, coordinate.y as int) == 0 ==> {
                &&& final(self).value_at(coordinate.x as int, coordinate.y as int) == digit
                &&& final(self).cand_at(coordinate.x as int, coordinate.y as int) == mask_of(digit)
                &&& final(self).count() == old(self).count() + 1
                &&& unchanged_except(
                    *old(self),
                    *final(self),
                    coordinate.x as int,
                    coordinate.y as int,
                )
                &&& wl_after_push(old(self).worklist(), final(self).worklist(), coordinate)
            },
    {
        let i = coordinate.y * 9 + coordinate.x;
        if self.values[i] != 0 {
            proof {
                lemma_ops_refl(*self);
            }
            return ;
        }
        let ghost v0 = self.values@;
        let ghost c0 = self.candidates@;
        let nc = Candidates::new(digit);
        self.values.set(i, digit);
        self.candidates.set(i, nc);
        proof {
            lemma_count_solved_lt_len(v0, i as int);
            lemma_count_solved_update(v0, i as int, digit);
            lemma_mask_total_update(c0, i as int, nc);
            lemma_mask_of_digit(digit);
        }
        self.solved_count = self.solved_count + 1;
        self.push_fresh(coordinate);
        proof {
            self.lemma_cell_update_effects(*old(self), coordinate.x as int, coordinate.y as int);
            self.lemma_push_step_relations(*old(self), coordinate);
            self.lemma_changed_solved_one_cell(
                *old(self),
                coordinate.x as int,
                coordinate.y as int,
            );
            if old(self).cand_at(coordinate.x as int, coordinate.y as int) & mask_of(digit) != 0 {
                crate::sudoku_cell_bitmask::lemma_singleton_subset(
                    old(self).cand_at(coordinate.x as int, coordinate.y as int),
                    digit,
                );
                self.lemma_shrink_one_cell(
                    *old(self),
                    coordinate.x as int,
                    coordinate.y as int,
                );
            }
        }
    }

    /// After one cell update followed by a deduplicated push of its
    /// coordinate, the worklist only grew and any fresh assignment is
    /// queued.
    proof fn lemma_push_step_relations(self, prev: Board, coordinate: Coordinate)
        requires
            cell_in_range(coordinate.x as int, coordinate.y as int),
            unchanged_except(prev, self, coordinate.x as int, coordinate.y as int),
            wl_after_push(prev.worklist(), self.worklist(), coordinate),
        ensures
            wl_superset(prev, self),
            newly_solved_queued(prev, self),
    {
        assert forall|c: Coordinate| prev.worklist().contains(c) implies self.worklist().contains(
            c,
        ) by {
            if !prev.worklist().contains(coordinate) {
                lemma_push_contains(prev.worklist(), coordinate, c);
            }
        }
        if !prev.worklist().contains(coordinate) {
            lemma_push_contains(prev.worklist(), coordinate, coordinate);
        }
        assert(self.worklist().contains(coordinate));
        assert forall|x: int, y: int|
            cell_in_range(x, y) && prev.value_at(x, y) == 0 && #[trigger] self.value_at(x, y)
                != 0 implies self.worklist().contains(
            Coordinate { x: x as usize, y: y as usize },
        ) by {
            if x == coordinate.x as int && y == coordinate.y as int {
                assert(Coordinate { x: x as usize, y: y as usize } == coordinate);
            } else {
                assert(self.value_at(x, y) == prev.value_at(x, y));
            }
        }
    }

    /// When only one cell's candidate set may have changed, and that cell is
    /// solved, every changed set belongs to a solved cell.
    proof fn lemma_changed_solved_one_cell(self, prev: Board, x0: int, y0: int)
        requires
            cell_in_range(x0, y0),
            unchanged_except(prev, self, x0, y0),
            self.value_at(x0, y0) != 0,
        ensures
            cand_changed_solved(prev, self),
    {
        assert forall|x: int, y: int|
            cell_in_range(x, y) && #[trigger] self.cand_at(x, y) != prev.cand_at(x, y) implies self.value_at(x, y) != 0 by {
            if !(x == x0 && y == y0) {
                assert(self.cand_at(x, y) == prev.cand_at(x, y));
            }
        }
    }

    /// When only one cell's candidate set changed, and it shrank, the whole
    /// board's candidate sets shrank.
    proof fn lemma_shrink_one_cell(self, prev: Board, x0: int, y0: int)
        requires
            cell_in_range(x0, y0),
            unchanged_except(prev, self, x0, y0),
            self.cand_at(x0, y0) & !prev.cand_at(x0, y0) == 0,
        ensures
            cand_shrinks(prev, self),
    {
        assert forall|x: int, y: int| cell_in_range(x, y) implies #[trigger] self.cand_at(x, y)
            & !prev.cand_at(x, y) == 0 by {
            if !(x == x0 && y == y0) {
                assert(self.cand_at(x, y) == prev.cand_at(x, y));
                crate::sudoku_cell_bitmask::lemma_mask_shrink_refl(prev.cand_at(x, y));
            }
        }
    }

    /// Removes `digit` from the candidate set of the cell at `coordinate`.
    /// A no-op when the cell is already solved, and equally when the digit
    /// is already absent: re-running the same elimination changes nothing,
    /// neither worklist nor count. When the removal collapses the set to a
    /// single digit, the cell is solved on the spot with the same
    /// bookkeeping as `assign`; whenever the set changed at all, the
    /// coordinate is queued, since a narrower set may enable a downstream
    /// deduction. Afterwards the cell is solved or no longer permits
    /// `digit`.
    pub fn eliminate(&mut self, coordinate: Coordinate, digit: u8)
        requires
            old(self).wf(),
            coordinate.wf(),
            1 <= digit <= 9,
        ensures
            final(self).wf(),
            values_monotonic(*old(self), *final(self)),
            cand_shrinks(*old(self), *final(self)),
            wl_superset(*old(self), *final(self)),
            newly_solved_queued(*old(self), *final(self)),
            wl_distinct(final(self).worklist()),
            final(self).measure() <= old(self).measure(),
            final(self).value_at(coordinate.x as int, coordinate.y as int) != 0 || final(self).cand_at(coordinate.x as int, coordinate.y as int) & mask_of(digit) == 0,
            old(self).value_at(coordinate.x as int, coordinate.y as int) != 0 ==> *final(self) == *old(self),
            old(self).value_at(coordinate.x as int, coordinate.y as int) == 0 ==> {
                let m = old(self).cand_at(coordinate.x as int, coordinate.y as int);
                let nm = m & !mask_of(digit);
                &&& (digit_of(nm) == 0 && nm == m ==> *final(self) == *old(self))
                &&& (digit_of(nm) != 0 || nm != m ==> {
                    &&& final(self).cand_at(coordinate.x as int, coordinate.y as int) == nm
                    &&& final(self).value_at(coordinate.x as int, coordinate.y as int) == digit_of(
                        nm,
                    )
                    &&& final(self).count() == old(self).count() + (if digit_of(nm) != 0 {
                        1int
                    } else {
                        0int
                    })
                    &&& unchanged_except(
                        *old(self),
                        *final(self),
                        coordinate.x as int,
                        coordinate.y as int,
                    )
                    &&& wl_after_push(old(self).worklist(), final(self).worklist(), coordinate)
                })
            },
    {
        let i = coordinate.y * 9 + coordinate.x;
        if self.values[i] != 0 {
            proof {
                lemma_ops_refl(*self);
            }
            return ;
        }
        let m = self.candidates[i];
        let nm = m.without(digit);
        let ghost v0 = self.values@;
        let ghost c0 = self.candidates@;
        match nm.value() {
            Some(d) => {
                // the narrowed set determines a digit (it may already have
                // been that singleton): record the solution and re-queue
                self.candidates.set(i, nm);
                self.values.set(i, d);
                proof {
                    lemma_mask_total_update(c0, i as int, nm);
                    lemma_digit_of_range(nm.mask());
                    lemma_count_solved_lt_len(v0, i as int);
                    lemma_count_solved_update(v0, i as int, d);
                }
                self.solved_count = self.solved_count + 1;
                self.push_fresh(coordinate);
                proof {
                    assert(self.values@ == v0.update(i as int, self.values@[i as int]));
                    self.lemma_cell_update_effects(
                        *old(self),
                        coordinate.x as int,
                        coordinate.y as int,
                    );
                    self.lemma_push_step_relations(*old(self), coordinate);
                    self.lemma_shrink_one_cell(
                        *old(self),
                        coordinate.x as int,
                        coordinate.y as int,
                    );
                }
            },
            None => {
                if nm == m {
                    proof {
                        lemma_ops_refl(*self);
                    }
                    return ;
                }
                self.candidates.set(i, nm);
                proof {
                    lemma_mask_total_update(c0, i as int, nm);
                    assert(v0.update(i as int, v0[i as int]) =~= v0);
                }
                self.push_fresh(coordinate);
                proof {
                    assert(self.values@ == v0.update(i as int, self.values@[i as int]));
                    self.lemma_cell_update_effects(
                        *old(self),
                        coordinate.x as int,
                        coordinate.y as int,
                    );
                    self.lemma_push_step_relations(*old(self), coordinate);
                    self.lemma_shrink_one_cell(
                        *old(self),
                        coordinate.x as int,
                        coordinate.y as int,
                    );
                }
            },
        }
    }

    /// Replaces the cell at `coordinate` when that cell is not solved yet:
    /// the candidate set is taken from `cell`, and a resolved cell is
    /// recorded as solved, counted, and queued for propagation. A no-op on
    /// an already solved cell: assignment is monotonic.
    pub fn update_cell(&mut self, coordinate: Coordinate, cell: Cell)
        requires
            old(self).wf(),
            coordinate.wf(),
            cell.wf(),
        ensures
            final(self).wf(),
            values_monotonic(*old(self), *final(self)),
            wl_distinct(final(self).worklist()),
            old(self).value_at(coordinate.x as int, coordinate.y as int) != 0 ==> *final(self)
                == *old(self),
            old(self).value_at(coordinate.x as int, coordinate.y as int) == 0 ==> {
                &&& final(self).cand_at(coordinate.x as int, coordinate.y as int)
                    == cell.candidates.mask()
                &&& unchanged_except(
                    *old(self),
                    *final(self),
                    coordinate.x as int,
                    coordinate.y as int,
                )
                &&& (cell.contents matches Contents::Value(d) ==> final(self).value_at(
                    coordinate.x as int,
                    coordinate.y as int,
                ) == d && final(self).count() == old(self).count() + 1 && wl_after_push(
                    old(self).worklist(),
                    final(self).worklist(),
                    coordinate,
                ))
                &&& (cell.contents is Empty ==> final(self).value_at(
                    coordinate.x as int,
                    coordinate.y as int,
                ) == 0 && final(self).count() == old(self).count() && final(self).worklist() == old(self).worklist())
            },
    {
        let i = coordinate.y * 9 + coordinate.x;
        if self.values[i] != 0 {
            return ;
        }
        let ghost v0 = self.values@;
        let ghost c0 = self.candidates@;
        self.candidates.set(i, cell.candidates);
        match cell.contents {
            Contents::Value(d) => {
                self.values.set(i, d);
                proof {
                    lemma_count_solved_lt_len(v0, i as int);
                    lemma_count_solved_update(v0, i as int, d);
                    lemma_digit_of_range(cell.candidates.mask());
                }
                self.solved_count = self.solved_count + 1;
                self.push_fresh(coordinate);
            },
            Contents::Empty => {
                proof {
                    assert(v0.update(i as int, v0[i as int]) =~= v0);
                }
            },
        }
        proof {
            assert(self.values@ == v0.update(i as int, self.values@[i as int]));
            self.lemma_cell_update_effects(*old(self), coordinate.x as int, coordinate.y as int);
        }
    }

    /// After updating the single flat index `y0 * 9 + x0`, every other cell
    /// reads back unchanged: the flat index is injective on the board.
    proof fn lemma_cell_update_effects(self, prev: Board, x0: int, y0: int)
        requires
            prev.values@.len() == 81,
            prev.candidates@.len() == 81,
            cell_in_range(x0, y0),
            self.values@ == prev.values@.update(y0 * 9 + x0, self.values@[y0 * 9 + x0]),
            self.candidates@ == prev.candidates@.update(
                y0 * 9 + x0,
                self.candidates@[y0 * 9 + x0],
            ),
        ensures
            unchanged_except(prev, self, x0, y0),
            self.value_at(x0, y0) != 0 ==> values_monotonic(prev, self) || prev.value_at(x0, y0)
                != 0,
    {
        assert forall|x: int, y: int|
            #![trigger self.value_at(x, y)]
            #![trigger self.cand_at(x, y)]
            cell_in_range(x, y) && !(x == x0 && y == y0) implies self.value_at(x, y)
            == prev.value_at(x, y) && self.cand_at(x, y) == prev.cand_at(x, y) by {
            assert(y * 9 + x != y0 * 9 + x0);
        }
        if self.value_at(x0, y0) != 0 && prev.value_at(x0, y0) == 0 {
            assert forall|x: int, y: int|
                #![trigger prev.value_at(x, y)]
                #![trigger self.value_at(x, y)]
                cell_in_range(x, y) && prev.value_at(x, y) != 0 implies self.value_at(x, y)
                == prev.value_at(x, y) by {
                assert(!(x == x0 && y == y0));
                assert(y * 9 + x != y0 * 9 + x0);
            }
        }
    }
}

/// Every board operation relates its old and new state in four ways: solved
/// values are kept, candidate sets only shrink, the worklist only grows,
/// and fresh assignments are queued. A board relates to itself in all four.
pub proof fn lemma_ops_refl(a: Board)
    ensures
        values_monotonic(a, a),
        cand_shrinks(a, a),
        wl_superset(a, a),
        newly_solved_queued(a, a),
        cand_changed_solved(a, a),
{
    assert forall|x: int, y: int| cell_in_range(x, y) implies #[trigger] a.cand_at(x, y)
        & !a.cand_at(x, y) == 0 by {
        crate::sudoku_cell_bitmask::lemma_mask_shrink_refl(a.cand_at(x, y));
    }
}

/// The four step relations compose across two successive operations.
pub proof fn lemma_ops_trans(a: Board, b: Board, c: Board)
    requires
        values_monotonic(a, b),
        cand_shrinks(a, b),
        wl_superset(a, b),
        newly_solved_queued(a, b),
        values_monotonic(b, c),
        cand_shrinks(b, c),
        wl_superset(b, c),
        newly_solved_queued(b, c),
    ensures
        values_monotonic(a, c),
        cand_shrinks(a, c),
        wl_superset(a, c),
        newly_solved_queued(a, c),
{
    lemma_values_monotonic_trans(a, b, c);
    assert forall|x: int, y: int| cell_in_range(x, y) implies #[trigger] c.cand_at(x, y)
        & !a.cand_at(x, y) == 0 by {
        assert(b.cand_at(x, y) & !a.cand_at(x, y) == 0);
        assert(c.cand_at(x, y) & !b.cand_at(x, y) == 0);
        crate::sudoku_cell_bitmask::lemma_mask_shrink_trans(
            a.cand_at(x, y),
            b.cand_at(x, y),
            c.cand_at(x, y),
        );
    }
    assert forall|x: int, y: int|
        cell_in_range(x, y) && a.value_at(x, y) == 0 && #[trigger] c.value_at(x, y)
            != 0 implies c.worklist().contains(Coordinate { x: x as usize, y: y as usize }) by {
        if b.value_at(x, y) != 0 {
            assert(b.worklist().contains(Coordinate { x: x as usize, y: y as usize }));
        }
    }
}

/// Shrinking of candidate sets composes across two successive operations.
pub proof fn lemma_cand_shrinks_trans(a: Board, b: Board, c: Board)
    requires
        cand_shrinks(a, b),
        cand_shrinks(b, c),
    ensures
        cand_shrinks(a, c),
{
    assert forall|x: int, y: int| cell_in_range(x, y) implies #[trigger] c.cand_at(x, y)
        & !a.cand_at(x, y) == 0 by {
        assert(b.cand_at(x, y) & !a.cand_at(x, y) == 0);
        assert(c.cand_at(x, y) & !b.cand_at(x, y) == 0);
        crate::sudoku_cell_bitmask::lemma_mask_shrink_trans(
            a.cand_at(x, y),
            b.cand_at(x, y),
            c.cand_at(x, y),
        );
    }
}

/// Boards equal cell for cell, with equal worklists, relate in all four
/// step relations.
pub proof fn lemma_same_state_ops(a: Board, b: Board)
    requires
        same_cells(a, b),
        a.worklist() == b.worklist(),
    ensures
        values_monotonic(a, b),
        cand_shrinks(a, b),
        wl_superset(a, b),
        newly_solved_queued(a, b),
{
    lemma_same_cells_monotonic(a, b);
    assert forall|x: int, y: int| cell_in_range(x, y) implies #[trigger] b.cand_at(x, y)
        & !a.cand_at(x, y) == 0 by {
        assert(b.cand_at(x, y) == a.cand_at(x, y));
        crate::sudoku_cell_bitmask::lemma_mask_shrink_refl(a.cand_at(x, y));
    }
    assert forall|x: int, y: int|
        cell_in_range(x, y) && a.value_at(x, y) == 0 && #[trigger] b.value_at(x, y)
            != 0 implies b.worklist().contains(Coordinate { x: x as usize, y: y as usize }) by {
        assert(b.value_at(x, y) == a.value_at(x, y));
    }
}

/// What a pop leaves queued: every queued coordinate other than the last
/// one is still queued after the last is removed.
pub proof fn lemma_drop_last_contains(s: Seq<Coordinate>, c: Coordinate)
    requires
        s.len() > 0,
        s.contains(c),
        c != s.last(),
    ensures
        s.drop_last().contains(c),
{
    let k = choose|k: int| 0 <= k < s.len() && s[k] == c;
    assert(k != s.len() - 1);
    assert(s.drop_last()[k] == c);
}

/// Keeping solved values is transitive: what holds from `a` to `b` and from
/// `b` to `c` holds from `a` to `c`.
pub proof fn lemma_values_monotonic_trans(a: Board, b: Board, c: Board)
    requires
        values_monotonic(a, b),
        values_monotonic(b, c),
    ensures
        values_monotonic(a, c),
{
    assert forall|x: int, y: int|
        cell_in_range(x, y) && a.value_at(x, y) != 0 implies c.value_at(x, y) == a.value_at(
        x,
        y,
    ) by {
        assert(b.value_at(x, y) == a.value_at(x, y));
        assert(c.value_at(x, y) == b.value_at(x, y));
    }
}

/// Boards equal cell for cell trivially keep solved values.
pub proof fn lemma_same_cells_monotonic(a: Board, b: Board)
    requires
        same_cells(a, b),
    ensures
        values_monotonic(a, b),
{
    assert forall|x: int, y: int|
        cell_in_range(x, y) && a.value_at(x, y) != 0 implies b.value_at(x, y) == a.value_at(
        x,
        y,
    ) by {
        assert(b.value_at(x, y) == a.value_at(x, y));
    }
}

proof fn lemma_count_solved_pointwise_mono(a: Seq<u8>, b: Seq<u8>)
    requires
        a.len() == b.len(),
        forall|i: int| #![trigger a[i]] 0 <= i < a.len() && a[i] != 0 ==> b[i] == a[i],
    ensures
        count_solved(a) <= count_solved(b),
    decreases a.len(),
{
    if a.len() > 0 {
        assert forall|i: int|
            0 <= i < a.drop_last().len() && #[trigger] a.drop_last()[i] != 0 implies b.drop_last()[i]
            == a.drop_last()[i] by {
            assert(a.drop_last()[i] == a[i]);
            assert(b.drop_last()[i] == b[i]);
        }
        lemma_count_solved_pointwise_mono(a.drop_last(), b.drop_last());
    }
}

/// An operation that keeps solved values can only raise the solved count.
pub proof fn lemma_monotonic_count(a: Board, b: Board)
    requires
        a.wf(),
        b.wf(),
        values_monotonic(a, b),
    ensures
        a.count() <= b.count(),
{
    assert forall|i: int| 0 <= i < 81 && #[trigger] a.values@[i] != 0 implies b.values@[i]
        == a.values@[i] by {
        let x = i % 9;
        let y = i / 9;
        assert(y * 9 + x == i) by (nonlinear_arith)
            requires
                0 <= i < 81,
                x == i % 9,
                y == i / 9,
        ;
        assert(cell_in_range(x, y));
        assert(a.value_at(x, y) == a.values@[i]);
        assert(b.value_at(x, y) == a.value_at(x, y));
    }
    lemma_count_solved_pointwise_mono(a.values@, b.values@);
}

/// Whether the worklist already holds this coordinate.
fn contains_coordinate(wl: &Vec<Coordinate>, c: Coordinate) -> (r: bool)
    ensures
        r == wl@.contains(c),
{
    let mut k: usize = 0;
    while k < wl.len()
        invariant
            k <= wl@.len(),
            forall|j: int| #![trigger wl@[j]] 0 <= j < k ==> wl@[j] != c,
        decreases wl@.len() - k,
    {
        if wl[k] == c {
            return true;
        }
        k = k + 1;
    }
    false
}

} // verus!
