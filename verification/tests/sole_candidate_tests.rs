use sudoku::board::Board;
use sudoku::strategies::sole_candidate::solve;

fn board_values(board: &Board) -> Vec<Vec<u8>> {
    let mut rows: Vec<Vec<u8>> = Vec::new();
    for y in 0..9 {
        let mut row: Vec<u8> = Vec::new();
        for x in 0..9 {
            row.push(board.get_value(x, y));
        }
        rows.push(row);
    }
    rows
}

#[test]
fn solves_sole_candidate_row() {
    let initial_values = vec![
        vec![1, 2, 3, 4, 5, 6, 7, 8, 0],
        vec![0, 0, 0, 0, 0, 0, 0, 0, 0],
        vec![0, 0, 0, 0, 0, 0, 0, 0, 0],
        vec![0, 0, 0, 0, 0, 0, 0, 0, 0],
        vec![0, 0, 0, 0, 0, 0, 0, 0, 0],
        vec![0, 0, 0, 0, 0, 0, 0, 0, 0],
        vec![0, 0, 0, 0, 0, 0, 0, 0, 0],
        vec![0, 0, 0, 0, 0, 0, 0, 0, 0],
        vec![0, 0, 0, 0, 0, 0, 0, 0, 0],
    ];
    let mut board = Board::new(initial_values);

    for i in 0..9 {
        solve(&mut board, i, 0);
    }

    let expected: Vec<Vec<u8>> = vec![
        vec![1, 2, 3, 4, 5, 6, 7, 8, 9],
        vec![0, 0, 0, 0, 0, 0, 0, 0, 0],
        vec![0, 0, 0, 0, 0, 0, 0, 0, 0],
        vec![0, 0, 0, 0, 0, 0, 0, 0, 0],
        vec![0, 0, 0, 0, 0, 0, 0, 0, 0],
        vec![0, 0, 0, 0, 0, 0, 0, 0, 0],
        vec![0, 0, 0, 0, 0, 0, 0, 0, 0],
        vec![0, 0, 0, 0, 0, 0, 0, 0, 0],
        vec![0, 0, 0, 0, 0, 0, 0, 0, 0],
    ];
    assert_eq!(expected, board_values(&board));
}

#[test]
fn solves_sole_candidate_col() {
    let initial_values = vec![
        vec![3, 2, 1, 4, 5, 6, 7, 8, 9],
        vec![0, 0, 2, 0, 0, 0, 0, 0, 0],
        vec![0, 0, 3, 0, 0, 0, 0, 0, 0],
        vec![0, 0, 4, 0, 0, 0, 0, 0, 0],
        vec![0, 0, 5, 0, 0, 0, 0, 0, 0],
        vec![0, 0, 0, 0, 0, 0, 0, 0, 0],
        vec![0, 0, 7, 0, 0, 0, 0, 0, 0],
        vec![0, 0, 8, 0, 0, 0, 0, 0, 0],
        vec![0, 0, 9, 0, 0, 0, 0, 0, 0],
    ];
    let mut board = Board::new(initial_values);

    for i in 0..9 {
        solve(&mut board, 2, i);
    }

    let expected: Vec<Vec<u8>> = vec![
        vec![3, 2, 1, 4, 5, 6, 7, 8, 9],
        vec![0, 0, 2, 0, 0, 0, 0, 0, 0],
        vec![0, 0, 3, 0, 0, 0, 0, 0, 0],
        vec![0, 0, 4, 0, 0, 0, 0, 0, 0],
        vec![0, 0, 5, 0, 0, 0, 0, 0, 0],
        vec![0, 0, 6, 0, 0, 0, 0, 0, 0],
        vec![0, 0, 7, 0, 0, 0, 0, 0, 0],
        vec![0, 0, 8, 0, 0, 0, 0, 0, 0],
        vec![0, 0, 9, 0, 0, 0, 0, 0, 0],
    ];
    assert_eq!(expected, board_values(&board));
}

#[test]
fn solves_sole_candidate_block() {
    let initial_values = vec![
        vec![3, 2, 1, 4, 5, 6, 7, 8, 9],
        vec![0, 0, 2, 0, 0, 0, 0, 0, 0],
        vec![0, 0, 3, 0, 0, 0, 0, 0, 0],
        vec![0, 0, 4, 0, 0, 0, 0, 0, 0],
        vec![0, 0, 5, 0, 0, 0, 0, 0, 0],
        vec![0, 0, 6, 0, 0, 0, 0, 0, 0],
        vec![0, 5, 7, 0, 0, 0, 0, 0, 0],
        vec![1, 6, 8, 0, 0, 0, 0, 0, 0],
        vec![2, 3, 9, 0, 0, 0, 0, 0, 0],
    ];
    let mut board = Board::new(initial_values);

    solve(&mut board, 0, 7);
    solve(&mut board, 0, 8);
    solve(&mut board, 1, 6);
    solve(&mut board, 1, 7);
    solve(&mut board, 1, 8);
    solve(&mut board, 2, 6);
    solve(&mut board, 2, 7);
    solve(&mut board, 2, 8);

    let expected: Vec<Vec<u8>> = vec![
        vec![3, 2, 1, 4, 5, 6, 7, 8, 9],
        vec![0, 0, 2, 0, 0, 0, 0, 0, 0],
        vec![0, 0, 3, 0, 0, 0, 0, 0, 0],
        vec![0, 0, 4, 0, 0, 0, 0, 0, 0],
        vec![0, 0, 5, 0, 0, 0, 0, 0, 0],
        vec![0, 0, 6, 0, 0, 0, 0, 0, 0],
        vec![4, 5, 7, 0, 0, 0, 0, 0, 0],
        vec![1, 6, 8, 0, 0, 0, 0, 0, 0],
        vec![2, 3, 9, 0, 0, 0, 0, 0, 0],
    ];
    assert_eq!(expected, board_values(&board));
}
