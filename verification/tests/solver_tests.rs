use sudoku::board::Board;
use sudoku::solver::solve_board;

fn board_values(board: &Board) -> Vec<Vec<u8>> {
    let mut rows: Vec<Vec<u8>> = Vec::new();
    for y in 0..9 {
        let mut row: Vec<u8> = Vec::new();
        for x in 0..9 {
            row.push(board.get_value(x, y));
        }
        rows.push(row);
    }
    rows
}

#[test]
fn solves_easy_puzzle() {
    let initial_values = vec![
        vec![3, 6, 0, 7, 0, 1, 0, 5, 0],
        vec![0, 7, 4, 0, 0, 0, 0, 0, 9],
        vec![0, 0, 8, 0, 0, 0, 0, 0, 0],
        vec![0, 5, 0, 4, 3, 0, 1, 0, 0],
        vec![0, 0, 0, 2, 7, 8, 0, 0, 0],
        vec![0, 0, 9, 0, 6, 5, 0, 4, 0],
        vec![0, 0, 0, 0, 0, 0, 5, 0, 0],
        vec![8, 0, 0, 0, 0, 0, 9, 3, 0],
        vec![0, 1, 0, 9, 0, 3, 0, 6, 4],
    ];
    let mut board = Board::new(initial_values);
    solve_board(&mut board);

    let expected: Vec<Vec<u8>> = vec![
        vec![3, 6, 2, 7, 9, 1, 4, 5, 8],
        vec![5, 7, 4, 6, 8, 2, 3, 1, 9],
        vec![1, 9, 8, 3, 5, 4, 2, 7, 6],
        vec![6, 5, 7, 4, 3, 9, 1, 8, 2],
        vec![4, 3, 1, 2, 7, 8, 6, 9, 5],
        vec![2, 8, 9, 1, 6, 5, 7, 4, 3],
        vec![9, 4, 3, 8, 1, 6, 5, 2, 7],
        vec![8, 2, 6, 5, 4, 7, 9, 3, 1],
        vec![7, 1, 5, 9, 2, 3, 8, 6, 4],
    ];
    assert_eq!(expected, board_values(&board));
    assert!(board.is_solved());
    assert_eq!(81, board.solved_count());
}

#[test]
fn fills_the_last_cell_of_a_row() {
    let initial_values = vec![
        vec![1, 2, 3, 4, 5, 6, 7, 8, 0],
        vec![0, 0, 0, 0, 0, 0, 0, 0, 0],
        vec![0, 0, 0, 0, 0, 0, 0, 0, 0],
        vec![0, 0, 0, 0, 0, 0, 0, 0, 0],
        vec![0, 0, 0, 0, 0, 0, 0, 0, 0],
        vec![0, 0, 0, 0, 0, 0, 0, 0, 0],
        vec![0, 0, 0, 0, 0, 0, 0, 0, 0],
        vec![0, 0, 0, 0, 0, 0, 0, 0, 0],
        vec![0, 0, 0, 0, 0, 0, 0, 0, 0],
    ];
    let mut board = Board::new(initial_values);
    solve_board(&mut board);

    assert_eq!(9, board.get_value(8, 0));
    assert_eq!(9, board.solved_count());
    assert!(!board.is_solved());
}

#[test]
fn stalls_without_a_wrong_answer_on_a_hard_puzzle() {
    // this puzzle needs deductions beyond the sole-candidate and
    // unique-candidate strategies, so the solver must stall rather than
    // fill in a wrong digit
    let initial_values = vec![
        vec![8, 0, 0, 0, 0, 0, 0, 0, 0],
        vec![0, 0, 3, 6, 0, 0, 0, 0, 0],
        vec![0, 7, 0, 0, 9, 0, 2, 0, 0],
        vec![0, 5, 0, 0, 0, 7, 0, 0, 0],
        vec![0, 0, 0, 0, 4, 5, 7, 0, 0],
        vec![0, 0, 0, 1, 0, 0, 0, 3, 0],
        vec![0, 0, 1, 0, 0, 0, 0, 6, 8],
        vec![0, 0, 8, 5, 0, 0, 0, 1, 0],
        vec![0, 9, 0, 0, 0, 0, 4, 0, 0],
    ];
    let solution: Vec<Vec<u8>> = vec![
        vec![8, 1, 2, 7, 5, 3, 6, 4, 9],
        vec![9, 4, 3, 6, 8, 2, 1, 7, 5],
        vec![6, 7, 5, 4, 9, 1, 2, 8, 3],
        vec![1, 5, 4, 2, 3, 7, 8, 9, 6],
        vec![3, 6, 9, 8, 4, 5, 7, 2, 1],
        vec![2, 8, 7, 1, 6, 9, 5, 3, 4],
        vec![5, 2, 1, 9, 7, 4, 3, 6, 8],
        vec![4, 3, 8, 5, 2, 6, 9, 1, 7],
        vec![7, 9, 6, 3, 1, 8, 4, 5, 2],
    ];
    let mut board = Board::new(initial_values.clone());
    solve_board(&mut board);

    assert!(!board.is_solved());
    for y in 0..9 {
        for x in 0..9 {
            // givens are never overwritten
            if initial_values[y][x] != 0 {
                assert_eq!(initial_values[y][x] as u8, board.get_value(x, y));
            }
            // whatever the solver did fill in agrees with the solution
            if board.get_value(x, y) != 0 {
                assert_eq!(solution[y][x], board.get_value(x, y));
            }
        }
    }
}
