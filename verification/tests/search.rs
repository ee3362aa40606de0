use sudoku::Sudoku;

fn example() -> Vec<Vec<u8>> {
    vec![
        vec![5, 0, 0, 9, 0, 0, 0, 0, 1],
        vec![9, 0, 4, 7, 0, 1, 0, 0, 0],
        vec![0, 7, 2, 0, 0, 0, 0, 0, 0],
        vec![0, 0, 0, 5, 0, 0, 2, 0, 7],
        vec![0, 0, 7, 0, 0, 6, 0, 4, 0],
        vec![3, 0, 0, 0, 0, 0, 6, 0, 0],
        vec![0, 0, 6, 0, 0, 0, 9, 3, 0],
        vec![0, 1, 0, 0, 0, 9, 4, 0, 0],
        vec![8, 0, 0, 4, 2, 0, 0, 0, 0],
    ]
}

fn example_solved() -> Vec<Vec<u8>> {
    vec![
        vec![5, 3, 8, 9, 4, 2, 7, 6, 1],
        vec![9, 6, 4, 7, 3, 1, 5, 2, 8],
        vec![1, 7, 2, 6, 5, 8, 3, 9, 4],
        vec![6, 4, 9, 5, 8, 3, 2, 1, 7],
        vec![2, 5, 7, 1, 9, 6, 8, 4, 3],
        vec![3, 8, 1, 2, 7, 4, 6, 5, 9],
        vec![4, 2, 6, 8, 1, 7, 9, 3, 5],
        vec![7, 1, 5, 3, 6, 9, 4, 8, 2],
        vec![8, 9, 3, 4, 2, 5, 1, 7, 6],
    ]
}

/// The top right cell can hold no digit: its row holds 1 to 8 and its
/// column a 9.
fn stuck() -> Vec<Vec<u8>> {
    let mut board = vec![vec![0; 9]; 9];
    board[0] = vec![1, 2, 3, 4, 5, 6, 7, 8, 0];
    board[1][8] = 9;
    board
}

/// The solved example without the four cells in which 3 and 7 can change
/// places: columns 1 and 6 of rows 0 and 2.
fn two_ways() -> Vec<Vec<u8>> {
    let mut board = example_solved();
    board[0][1] = 0;
    board[0][6] = 0;
    board[2][1] = 0;
    board[2][6] = 0;
    board
}

fn each_digit_once(cells: Vec<u8>) -> bool {
    let mut sorted = cells;
    sorted.sort();
    sorted == vec![1, 2, 3, 4, 5, 6, 7, 8, 9]
}

fn is_solved(grid: &Vec<Vec<u8>>) -> bool {
    if grid.len() != 9 {
        return false;
    }
    for k in 0..9 {
        if grid[k].len() != 9 {
            return false;
        }
    }
    for k in 0..9 {
        let row: Vec<u8> = (0..9).map(|i| grid[k][i]).collect();
        let column: Vec<u8> = (0..9).map(|j| grid[j][k]).collect();
        let boxed: Vec<u8> = (0..9).map(|c| grid[k / 3 * 3 + c / 3][k % 3 * 3 + c % 3]).collect();
        if !each_digit_once(row) || !each_digit_once(column) || !each_digit_once(boxed) {
            return false;
        }
    }
    true
}

#[test]
fn new_finds_the_first_solution() {
    let sudoku = Sudoku::new(example());
    assert_eq!(sudoku.solved_board, example_solved());
    assert_eq!(sudoku.board, example());
    assert_eq!(sudoku.initial_board, example());
    assert!(!sudoku.help_player);
}

#[test]
fn new_of_a_grid_without_solution_has_a_blank_solution() {
    let sudoku = Sudoku::new(stuck());
    assert_eq!(sudoku.solved_board, vec![vec![0u8; 9]; 9]);
    assert_eq!(sudoku.board, stuck());
    assert_eq!(sudoku.initial_board, stuck());
}

#[test]
fn new_of_a_solved_grid_is_its_own_solution() {
    let sudoku = Sudoku::new(example_solved());
    assert_eq!(sudoku.solved_board, example_solved());
    assert_eq!(sudoku.board, example_solved());
}

#[test]
fn solve_fills_every_row_column_and_box() {
    let mut sudoku = Sudoku::new(example());
    assert!(sudoku.solve());
    assert!(is_solved(&sudoku.board));
    assert_eq!(sudoku.board, example_solved());
    // the clues are kept
    for y in 0..9 {
        for x in 0..9 {
            if example()[y][x] != 0 {
                assert_eq!(sudoku.board[y][x], example()[y][x]);
            }
        }
    }
    assert_eq!(sudoku.initial_board, example());
}

#[test]
fn solve_takes_the_smaller_digit_first() {
    // 3 and 7 can stand either way; the search writes the 3 into the cell it
    // reaches first
    let mut sudoku = Sudoku::new(two_ways());
    assert!(sudoku.solve());
    assert_eq!(sudoku.board, example_solved());
    assert_eq!(sudoku.board[0][1], 3);
    assert_eq!(sudoku.board[2][1], 7);
}

#[test]
fn solve_gives_up_and_leaves_the_board() {
    let mut sudoku = Sudoku::new(stuck());
    assert!(!sudoku.solve());
    assert_eq!(sudoku.board, stuck());
    assert_eq!(sudoku.initial_board, stuck());
}

#[test]
fn solve_backs_out_of_a_wrong_entry() {
    // the player's 6 at (1, 0) stands where the solution needs a 3: the
    // search fails and takes back what it wrote
    let mut sudoku = Sudoku::new(example_solved_but(&[(1, 0), (4, 0), (1, 1), (4, 1)]));
    sudoku.set_cell(6, 1, 0);
    let before = sudoku.board.clone();
    assert!(!sudoku.solve());
    assert_eq!(sudoku.board, before);
}

fn example_solved_but(blanks: &[(usize, usize)]) -> Vec<Vec<u8>> {
    let mut board = example_solved();
    for &(x, y) in blanks {
        board[y][x] = 0;
    }
    board
}

#[test]
fn solve_goes_on_from_an_entry() {
    // with the player's 7 where the first solution has its 3, the search
    // finds the other way round
    let mut sudoku = Sudoku::new(two_ways());
    sudoku.set_cell(7, 1, 0);
    assert!(sudoku.solve());
    let mut expected = example_solved();
    expected[0][1] = 7;
    expected[0][6] = 3;
    expected[2][1] = 3;
    expected[2][6] = 7;
    assert_eq!(sudoku.board, expected);
    assert!(is_solved(&sudoku.board));
    assert_eq!(sudoku.solved_board, example_solved());
}

#[test]
fn solve_of_a_full_board_changes_nothing() {
    let mut sudoku = Sudoku::new(example_solved());
    assert!(sudoku.solve());
    assert_eq!(sudoku.board, example_solved());
}

#[test]
fn solve_does_not_compare_what_stands_already() {
    // two 5s in the first row, and no blank: nothing is left to search
    let mut board = example_solved();
    board[0][1] = 5;
    let mut sudoku = Sudoku {
        board: board.clone(),
        initial_board: vec![vec![0; 9]; 9],
        solved_board: vec![vec![0; 9]; 9],
        help_player: false,
    };
    assert!(sudoku.solve());
    assert_eq!(sudoku.board, board);
}

#[test]
fn no_of_solns_of_a_single_solution_is_one() {
    let mut sudoku = Sudoku::new(example_solved_but(&[(1, 0), (6, 0), (1, 2)]));
    assert_eq!(sudoku.no_of_solns(), 1);
    let mut sudoku = Sudoku::new(example_solved());
    assert_eq!(sudoku.no_of_solns(), 1);
}

#[test]
fn no_of_solns_counts_every_solution() {
    let mut sudoku = Sudoku::new(two_ways());
    assert_eq!(sudoku.no_of_solns(), 2);
    let mut sudoku = Sudoku::new(example());
    assert_eq!(sudoku.no_of_solns(), 44);
}

#[test]
fn no_of_solns_without_solution_is_zero() {
    let mut sudoku = Sudoku::new(stuck());
    assert_eq!(sudoku.no_of_solns(), 0);
}

#[test]
fn no_of_solns_leaves_the_board() {
    let mut sudoku = Sudoku::new(example());
    sudoku.set_cell(3, 1, 0);
    let before = sudoku.board.clone();
    sudoku.no_of_solns();
    assert_eq!(sudoku.board, before);
    assert_eq!(sudoku.initial_board, example());
    assert_eq!(sudoku.solved_board, example_solved());
}
