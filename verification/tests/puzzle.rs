use rand::Rng;
use sudoku::play::{digit_of_key, Event, Game, Mark};
use sudoku::Sudoku;

fn example() -> Vec<Vec<u8>> {
    vec![
        vec![5, 0, 0, 9, 0, 0, 0, 0, 1],
        vec![9, 0, 4, 7, 0, 1, 0, 0, 0],
        vec![0, 7, 2, 0, 0, 0, 0, 0, 0],
        vec![0, 0, 0, 5, 0, 0, 2, 0, 7],
        vec![0, 0, 7, 0, 0, 6, 0, 4, 0],
        vec![3, 0, 0, 0, 0, 0, 6, 0, 0],
        vec![0, 0, 6, 0, 0, 0, 9, 3, 0],
        vec![0, 1, 0, 0, 0, 9, 4, 0, 0],
        vec![8, 0, 0, 4, 2, 0, 0, 0, 0],
    ]
}

fn example_solved() -> Vec<Vec<u8>> {
    vec![
        vec![5, 3, 8, 9, 4, 2, 7, 6, 1],
        vec![9, 6, 4, 7, 3, 1, 5, 2, 8],
        vec![1, 7, 2, 6, 5, 8, 3, 9, 4],
        vec![6, 4, 9, 5, 8, 3, 2, 1, 7],
        vec![2, 5, 7, 1, 9, 6, 8, 4, 3],
        vec![3, 8, 1, 2, 7, 4, 6, 5, 9],
        vec![4, 2, 6, 8, 1, 7, 9, 3, 5],
        vec![7, 1, 5, 3, 6, 9, 4, 8, 2],
        vec![8, 9, 3, 4, 2, 5, 1, 7, 6],
    ]
}

fn blank() -> Vec<Vec<u8>> {
    vec![vec![0; 9]; 9]
}

fn blank_puzzle() -> Sudoku {
    Sudoku { board: blank(), initial_board: blank(), solved_board: blank(), help_player: false }
}

/// A puzzle whose board, clues and solution are all `grid`.
fn all_of(grid: Vec<Vec<u8>>) -> Sudoku {
    Sudoku {
        board: grid.clone(),
        initial_board: grid.clone(),
        solved_board: grid,
        help_player: false,
    }
}

fn no_digit_twice(grid: &Vec<Vec<u8>>) -> bool {
    for y1 in 0..9 {
        for x1 in 0..9 {
            for y2 in 0..9 {
                for x2 in 0..9 {
                    let peers = (x1, y1) != (x2, y2)
                        && (y1 == y2 || x1 == x2 || (x1 / 3 == x2 / 3 && y1 / 3 == y2 / 3));
                    if peers && grid[y1][x1] != 0 && grid[y1][x1] == grid[y2][x2] {
                        return false;
                    }
                }
            }
        }
    }
    true
}

fn filled(grid: &Vec<Vec<u8>>) -> usize {
    grid.iter().map(|row| row.iter().filter(|&&d| d != 0).count()).sum()
}

#[test]
fn put_clue_writes_board_and_clues() {
    let mut sudoku = Sudoku::new(example());
    sudoku.put_clue(3, 1, 0);
    let mut expected = example();
    expected[0][1] = 3;
    assert_eq!(sudoku.board, expected);
    assert_eq!(sudoku.initial_board, expected);
    assert_eq!(sudoku.solved_board, example_solved());
    // a clue can be written over, and taken out
    sudoku.put_clue(0, 0, 0);
    expected[0][0] = 0;
    assert_eq!(sudoku.board, expected);
    assert_eq!(sudoku.initial_board, expected);
}

#[test]
fn settle_makes_the_solution_the_clues() {
    let mut sudoku = blank_puzzle();
    for y in 0..9u8 {
        for x in 0..9u8 {
            sudoku.put_clue(example()[y as usize][x as usize], x, y);
        }
    }
    assert!(sudoku.settle());
    assert_eq!(sudoku.board, example_solved());
    assert_eq!(sudoku.initial_board, example_solved());
    assert_eq!(sudoku.solved_board, example_solved());
}

#[test]
fn settle_of_clues_without_solution_keeps_them() {
    let mut sudoku = blank_puzzle();
    for x in 0..8u8 {
        sudoku.put_clue(x + 1, x, 0);
    }
    sudoku.put_clue(9, 8, 1);
    let clues = sudoku.board.clone();
    assert!(!sudoku.settle());
    assert_eq!(sudoku.board, clues);
    assert_eq!(sudoku.initial_board, clues);
    assert_eq!(sudoku.solved_board, clues);
}

#[test]
fn carve_takes_one_clue_out_of_a_solved_grid() {
    for &(x, y) in &[(0u8, 0u8), (3, 4), (8, 8), (8, 0), (5, 7)] {
        let mut sudoku = all_of(example_solved());
        assert!(sudoku.carve(x, y));
        let mut expected = example_solved();
        expected[y as usize][x as usize] = 0;
        assert_eq!(sudoku.board, expected);
        assert_eq!(sudoku.initial_board, expected);
        assert_eq!(sudoku.solved_board, example_solved());
        // every clue agrees with the solution
        for j in 0..9 {
            for i in 0..9 {
                if sudoku.initial_board[j][i] != 0 {
                    assert_eq!(sudoku.initial_board[j][i], sudoku.solved_board[j][i]);
                }
            }
        }
        // the puzzle has the solution as its only one, and a search finds it
        assert_eq!(sudoku.no_of_solns(), 1);
        assert_eq!(Sudoku::new(sudoku.initial_board.clone()).solved_board, example_solved());
        assert!(sudoku.solve());
        assert_eq!(sudoku.board, sudoku.solved_board);
    }
}

#[test]
fn carve_puts_the_clue_back_where_a_second_solution_comes_up() {
    // three of the four cells in which 3 and 7 can change places are blank
    let mut grid = example_solved();
    grid[0][1] = 0;
    grid[0][6] = 0;
    grid[2][1] = 0;
    let mut sudoku = Sudoku {
        board: grid.clone(),
        initial_board: grid.clone(),
        solved_board: example_solved(),
        help_player: false,
    };
    // the fourth
    assert!(!sudoku.carve(6, 2));
    assert_eq!(sudoku.board, grid);
    assert_eq!(sudoku.initial_board, grid);
    // another cell can go
    assert!(sudoku.carve(4, 4));
    grid[4][4] = 0;
    assert_eq!(sudoku.board, grid);
    assert_eq!(sudoku.initial_board, grid);
}

#[test]
fn carve_puts_back_what_the_solution_holds() {
    // nothing completes the board, so the cell gets the digit of the
    // solution, whether it fits or not
    let mut board = blank();
    board[0] = vec![1, 2, 3, 4, 5, 6, 7, 8, 0];
    board[1][8] = 9;
    let mut sudoku = Sudoku {
        board: board.clone(),
        initial_board: board.clone(),
        solved_board: example_solved(),
        help_player: false,
    };
    assert!(!sudoku.carve(8, 0));
    board[0][8] = 1;
    assert_eq!(sudoku.board, board);
    assert_eq!(sudoku.initial_board, board);
    assert_eq!(sudoku.solved_board, example_solved());
}

#[test]
fn scatter_clues_writes_clues_that_fit() {
    let mut rng = rand::thread_rng();
    for _ in 0..50 {
        let mut sudoku = blank_puzzle();
        sudoku.scatter_clues(&mut rng, 10);
        assert_eq!(sudoku.board, sudoku.initial_board);
        assert_eq!(sudoku.solved_board, blank());
        assert!(filled(&sudoku.board) <= 10);
        assert!(no_digit_twice(&sudoku.board));
        for row in &sudoku.board {
            assert_eq!(row.len(), 9);
            for &d in row {
                assert!(d <= 9);
            }
        }
    }
}

#[test]
fn scatter_clues_draws_cells_and_digits() {
    // with cells and digits drawn at random, twenty boards of ten clues do
    // not all hold their clues in one cell, nor all the same digit
    let mut rng = rand::thread_rng();
    let mut cells = std::collections::BTreeSet::new();
    let mut digits = std::collections::BTreeSet::new();
    for _ in 0..20 {
        let mut sudoku = blank_puzzle();
        sudoku.scatter_clues(&mut rng, 10);
        for y in 0..9 {
            for x in 0..9 {
                if sudoku.board[y][x] != 0 {
                    cells.insert((x, y));
                    digits.insert(sudoku.board[y][x]);
                }
            }
        }
    }
    assert!(cells.len() > 10);
    assert!(digits.len() > 1);
    assert!(cells.iter().all(|&(x, y)| x < 9 && y < 9));
    assert!(digits.iter().all(|&d| 1 <= d && d <= 9));
}

#[test]
fn scatter_clues_of_no_rounds_changes_nothing() {
    let mut rng = rand::thread_rng();
    let mut sudoku = Sudoku::new(example());
    sudoku.scatter_clues(&mut rng, 0);
    assert_eq!(sudoku.board, example());
    assert_eq!(sudoku.initial_board, example());
    assert_eq!(sudoku.solved_board, example_solved());
}

#[test]
fn scatter_clues_on_a_full_board_blanks_cells() {
    // no digit may be written into a cell of a solved grid but the one
    // it holds, which its own row forbids: the cell is blanked
    let mut rng = rand::thread_rng();
    let mut sudoku = all_of(example_solved());
    sudoku.scatter_clues(&mut rng, 1);
    assert_eq!(filled(&sudoku.board), 80);
    assert_eq!(sudoku.board, sudoku.initial_board);
}

#[test]
fn mark_tells_clues_entries_and_mistakes() {
    let mut sudoku = Sudoku::new(example());
    sudoku.set_cell(3, 1, 0);
    sudoku.set_cell(4, 2, 0);
    assert_eq!(sudoku.mark(0, 0), Mark::Clue);
    assert_eq!(sudoku.mark(1, 0), Mark::Entry);
    assert_eq!(sudoku.mark(2, 0), Mark::Entry);
    assert_eq!(sudoku.mark(4, 0), Mark::Blank);
    sudoku.help_player = true;
    assert_eq!(sudoku.mark(0, 0), Mark::Clue);
    assert_eq!(sudoku.mark(1, 0), Mark::Entry);
    assert_eq!(sudoku.mark(2, 0), Mark::Mistake);
    assert_eq!(sudoku.mark(4, 0), Mark::Blank);
}

#[test]
fn digit_of_key_reads_the_ten_digits() {
    let keys = ['0', '1', '2', '3', '4', '5', '6', '7', '8', '9'];
    for d in 0..10u8 {
        assert_eq!(digit_of_key(keys[d as usize]), Some(d));
    }
    for c in ['a', ' ', '/', ':', '-', 'x', '\n'] {
        assert_eq!(digit_of_key(c), None);
    }
}

fn game() -> Game {
    Game { sudoku: Sudoku::new(example()), selected: (0, 0) }
}

#[test]
fn handle_moves_the_selection_and_stops_at_the_edge() {
    let mut game = game();
    assert!(!game.handle(Event::Left));
    assert_eq!(game.selected, (0, 0));
    assert!(!game.handle(Event::Up));
    assert_eq!(game.selected, (0, 0));
    assert!(!game.handle(Event::Right));
    assert_eq!(game.selected, (1, 0));
    assert!(!game.handle(Event::Down));
    assert_eq!(game.selected, (1, 1));
    for _ in 0..20 {
        game.handle(Event::Right);
        game.handle(Event::Down);
    }
    assert_eq!(game.selected, (8, 8));
    game.handle(Event::Left);
    game.handle(Event::Up);
    game.handle(Event::Up);
    assert_eq!(game.selected, (7, 6));
    assert_eq!(game.sudoku.board, example());
}

#[test]
fn handle_picks_a_cell_of_the_board() {
    let mut game = game();
    assert!(!game.handle(Event::Pick { x: 4, y: 7 }));
    assert_eq!(game.selected, (4, 7));
    game.handle(Event::Pick { x: 9, y: 0 });
    assert_eq!(game.selected, (4, 7));
    game.handle(Event::Pick { x: 0, y: 9 });
    assert_eq!(game.selected, (4, 7));
    game.handle(Event::Pick { x: 8, y: 8 });
    assert_eq!(game.selected, (8, 8));
}

#[test]
fn handle_enters_a_typed_digit_at_the_selection() {
    let mut game = game();
    game.handle(Event::Pick { x: 1, y: 0 });
    assert!(!game.handle(Event::Typed('3')));
    let mut expected = example();
    expected[0][1] = 3;
    assert_eq!(game.sudoku.board, expected);
    assert!(!game.handle(Event::Typed('x')));
    assert_eq!(game.sudoku.board, expected);
    game.handle(Event::Typed('0'));
    assert_eq!(game.sudoku.board, example());
    // a clue stays
    game.handle(Event::Pick { x: 0, y: 0 });
    game.handle(Event::Typed('7'));
    assert_eq!(game.sudoku.board, example());
    assert_eq!(game.selected, (0, 0));
}

#[test]
fn handle_solves_and_resets() {
    let mut game = game();
    assert!(!game.handle(Event::Solve));
    assert_eq!(game.sudoku.board, example_solved());
    assert!(game.handle(Event::Reset));
    assert_eq!(game.sudoku.board, example());
    assert_eq!(game.sudoku.initial_board, example());
    assert_eq!(game.sudoku.solved_board, example_solved());
}

#[test]
fn handle_sets_the_assist_flag() {
    let mut game = game();
    game.handle(Event::Pick { x: 2, y: 0 });
    game.handle(Event::Typed('4'));
    assert_eq!(game.sudoku.mark(2, 0), Mark::Entry);
    assert!(!game.handle(Event::Assist(true)));
    assert!(game.sudoku.help_player);
    assert_eq!(game.sudoku.mark(2, 0), Mark::Mistake);
    game.handle(Event::Assist(false));
    assert!(!game.sudoku.help_player);
    assert_eq!(game.sudoku.mark(2, 0), Mark::Entry);
    assert_eq!(game.selected, (2, 0));
}

#[test]
fn one_random_clue_makes_a_puzzle_with_one_blank() {
    // the steps by which a puzzle is made, with one random clue in place of
    // ten: the search is then short wherever the clue falls
    let mut rng = rand::thread_rng();
    for _ in 0..20 {
        let mut sudoku = blank_puzzle();
        sudoku.scatter_clues(&mut rng, 1);
        assert_eq!(filled(&sudoku.board), 1);
        let seeds = sudoku.board.clone();
        assert!(sudoku.settle());
        let solved = sudoku.solved_board.clone();
        assert_eq!(filled(&solved), 81);
        assert!(no_digit_twice(&solved));
        for y in 0..9 {
            for x in 0..9 {
                if seeds[y][x] != 0 {
                    assert_eq!(solved[y][x], seeds[y][x]);
                }
            }
        }
        let x: u8 = rng.gen_range(0..=8);
        let y: u8 = rng.gen_range(0..=8);
        assert!(sudoku.carve(x, y));
        assert_eq!(sudoku.board, sudoku.initial_board);
        assert_eq!(sudoku.solved_board, solved);
        assert_eq!(filled(&sudoku.initial_board), 80);
        assert_eq!(sudoku.initial_board[y as usize][x as usize], 0);
        // every clue agrees with the solution, and a search of the clues
        // gives the solution back
        for j in 0..9 {
            for i in 0..9 {
                if sudoku.initial_board[j][i] != 0 {
                    assert_eq!(sudoku.initial_board[j][i], solved[j][i]);
                }
            }
        }
        assert_eq!(Sudoku::new(sudoku.initial_board.clone()).solved_board, solved);
        assert!(sudoku.solve());
        assert_eq!(sudoku.board, solved);
        assert!(sudoku.is_well_formed());
    }
}
