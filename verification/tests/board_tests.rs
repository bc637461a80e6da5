use sudoku::board::Board;
use sudoku::candidates::Candidates;
use sudoku::cell::{Cell, Contents};
use sudoku::coordinate::Coordinate;

fn empty_rows() -> Vec<Vec<i32>> {
    let mut rows: Vec<Vec<i32>> = Vec::new();
    for _ in 0..9 {
        rows.push(vec![0, 0, 0, 0, 0, 0, 0, 0, 0]);
    }
    rows
}

#[test]
fn board_initializer_test() {
    let initial_values = vec![
        vec![1, 2, 3, 4, 5, 6, 7, 8, 0],
        vec![0, 0, 0, 0, 0, 0, 0, 0, 0],
        vec![0, 0, 0, 0, 0, 0, 0, 0, 0],
        vec![0, 0, 0, 0, 0, 0, 0, 0, 0],
        vec![0, 0, 0, 0, 0, 0, 0, 0, 0],
        vec![0, 0, 0, 0, 0, 0, 0, 0, 0],
        vec![0, 0, 0, 0, 0, 0, 0, 0, 0],
        vec![0, 0, 0, 0, 0, 0, 0, 0, 0],
        vec![0, 0, 0, 0, 0, 0, 0, 0, 0],
    ];
    let board = Board::new(initial_values);

    assert_eq!(8, board.solved_count());
    assert_eq!(
        format!("{:x}", 0x01FF),
        format!("{:x}", board.get_candidates(6, 3).bits())
    );
    assert_eq!(
        format!("{:x}", 0x0004),
        format!("{:x}", board.get_candidates(2, 0).bits())
    );
}

#[test]
fn assign_never_overwrites_a_solved_cell() {
    let mut rows = empty_rows();
    rows[0][0] = 5;
    let mut board = Board::new(rows);
    assert_eq!(1, board.solved_count());
    assert_eq!(5, board.get_value(0, 0));

    board.assign(Coordinate { x: 0, y: 0 }, 7);
    assert_eq!(5, board.get_value(0, 0));
    assert_eq!(0x010, board.get_candidates(0, 0).bits());
    assert_eq!(1, board.solved_count());
}

#[test]
fn eliminate_is_idempotent() {
    let mut board = Board::new(empty_rows());
    assert_eq!(0, board.solved_count());

    board.eliminate(Coordinate { x: 3, y: 3 }, 5);
    assert_eq!(0x1EF, board.get_candidates(3, 3).bits());
    assert_eq!(0, board.solved_count());

    // the same elimination again: no mask change, no count change, and no
    // second worklist entry
    board.eliminate(Coordinate { x: 3, y: 3 }, 5);
    assert_eq!(0x1EF, board.get_candidates(3, 3).bits());
    assert_eq!(0, board.solved_count());

    assert_eq!(Some(Coordinate { x: 3, y: 3 }), board.pop_work());
    assert_eq!(None, board.pop_work());
}

#[test]
fn eliminate_collapse_assigns_the_cell() {
    let mut board = Board::new(empty_rows());
    let target = Coordinate { x: 0, y: 7 };
    for digit in [1u8, 2, 3, 5, 6, 7, 8, 9] {
        board.eliminate(target, digit);
    }
    assert_eq!(4, board.get_value(0, 7));
    assert_eq!(0x008, board.get_candidates(0, 7).bits());
    assert_eq!(1, board.solved_count());
}

#[test]
fn update_cell_records_a_resolved_cell() {
    let mut board = Board::new(empty_rows());
    board.update_cell(Coordinate { x: 4, y: 2 }, Cell::new(Candidates::new(9)));
    assert_eq!(9, board.get_value(4, 2));
    assert_eq!(0x100, board.get_candidates(4, 2).bits());
    assert_eq!(1, board.solved_count());

    // a solved cell is never overwritten
    board.update_cell(Coordinate { x: 4, y: 2 }, Cell::new(Candidates::new(3)));
    assert_eq!(9, board.get_value(4, 2));
    assert_eq!(1, board.solved_count());
}

#[test]
fn pop_work_is_last_in_first_out() {
    let mut rows = empty_rows();
    rows[0][0] = 1;
    rows[0][1] = 2;
    let mut board = Board::new(rows);

    assert_eq!(Some(Coordinate { x: 1, y: 0 }), board.pop_work());
    assert_eq!(Some(Coordinate { x: 0, y: 0 }), board.pop_work());
    assert_eq!(None, board.pop_work());
}

#[test]
fn out_of_range_inputs_are_treated_as_blank() {
    let mut rows = empty_rows();
    rows[2][4] = 17;
    rows[3][3] = -1;
    let board = Board::new(rows);
    assert_eq!(0, board.solved_count());
    assert_eq!(0, board.get_value(4, 2));
    assert_eq!(0x1FF, board.get_candidates(4, 2).bits());
    assert_eq!(0x1FF, board.get_candidates(3, 3).bits());
}

#[test]
fn cell_new_resolves_singletons_only() {
    let solved = Cell::new(Candidates::new(7));
    assert_eq!(Contents::Value(7), solved.contents);

    let blank = Cell::new(Candidates::new_default());
    assert_eq!(Contents::Empty, blank.contents);
}
