use sudoku::board::Board;
use sudoku::coordinate::Coordinate;
use sudoku::strategies::column_row_exclusion::solve;

fn empty_rows() -> Vec<Vec<i32>> {
    let mut rows: Vec<Vec<i32>> = Vec::new();
    for _ in 0..9 {
        rows.push(vec![0, 0, 0, 0, 0, 0, 0, 0, 0]);
    }
    rows
}

#[test]
fn assigns_the_only_cell_of_a_row_that_permits_a_digit() {
    let mut board = Board::new(empty_rows());
    // remove 4 from every cell of row 0 except column 0; none of these
    // eliminations collapses a candidate set, so nothing is assigned yet
    for x in 1..9 {
        board.eliminate(Coordinate { x, y: 0 }, 4);
    }
    assert_eq!(0, board.solved_count());

    solve(&mut board);

    // row 0 then has only one place left for 4, even though that cell's own
    // candidate set still held every digit
    assert_eq!(4, board.get_value(0, 0));
    assert_eq!(0x008, board.get_candidates(0, 0).bits());
    assert_eq!(1, board.solved_count());
}

#[test]
fn assigns_the_only_cell_of_a_column_that_permits_a_digit() {
    let mut board = Board::new(empty_rows());
    for y in 0..8 {
        board.eliminate(Coordinate { x: 3, y }, 7);
    }
    assert_eq!(0, board.solved_count());

    solve(&mut board);

    assert_eq!(7, board.get_value(3, 8));
    assert_eq!(1, board.solved_count());
}

#[test]
fn leaves_an_undetermined_unit_alone() {
    let mut board = Board::new(empty_rows());
    // two cells of row 0 still permit 4: no deduction is possible
    for x in 2..9 {
        board.eliminate(Coordinate { x, y: 0 }, 4);
    }
    solve(&mut board);
    assert_eq!(0, board.solved_count());
}
