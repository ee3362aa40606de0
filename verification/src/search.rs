//! The exhaustive search: completing the board, and counting in how many
//! ways it can be completed.

use crate::completion::{
    completions_under,
    lemma_blanks_filled,
    lemma_completion_fixes_cell,
    lemma_completions_of_consistent,
    lemma_completions_under_ends,
    lemma_completions_under_next,
    lemma_first_completion_is,
    lemma_first_through_cell,
    lemma_full_grid,
};
use crate::engine::{Sudoku, blank_rows, copy_rows, grid_of, put};
use crate::grid::{
    Grid,
    blank_grid,
    blanks,
    comes_before,
    completes,
    completions,
    consistent,
    each_digit_once,
    extends,
    first_completion,
    has_completion,
    is_first_completion,
    is_grid,
    is_solution,
    lemma_with_cell,
    lemma_with_cell_again,
    on_board,
    settled,
    with_cell,
};
use crate::laws::lemma_solution_has_each_digit_once;
use vstd::math::min;
use vstd::prelude::*;

verus! {

impl Sudoku {
    /// A puzzle made of a grid of clues: the board and the clues are the
    /// grid, and the solution is its first completion, or all blank where the
    /// grid cannot be completed.
    pub fn new(board: Vec<Vec<u8>>) -> (sudoku: Sudoku)
        requires
            is_grid(grid_of(board)),
        ensures
            sudoku.wf(),
            sudoku@.current == grid_of(board),
            sudoku@.given == grid_of(board),
            sudoku@.solved == if has_completion(grid_of(board)) {
                first_completion(grid_of(board))
            } else {
                blank_grid()
            },
            !sudoku@.assist,
            has_completion(grid_of(board)) ==> extends(sudoku@.solved, sudoku@.given),
            has_completion(grid_of(board)) && consistent(grid_of(board)) ==> is_solution(
                sudoku@.solved,
            ) && each_digit_once(sudoku@.solved),
    {
        let mut sudoku = Sudoku {
            initial_board: copy_rows(&board),
            solved_board: blank_rows(),
            help_player: false,
            board,
        };
        if sudoku.solve() {
            sudoku.solved_board = copy_rows(&sudoku.board);
        }
        sudoku.board = copy_rows(&sudoku.initial_board);
        sudoku
    }

    /// Completes the board where it can be completed. The search writes
    /// into the first blank cell, read row by row, the smallest digit that
    /// may stand there and with which the rest can be completed: so what it
    /// leaves is the first completion of the board. Where there is none it
    /// gives the board back as it was and returns `false`.
    pub fn solve(&mut self) -> (done: bool)
        requires
            old(self).wf(),
        ensures
            final(self).wf(),
            done == has_completion(old(self)@.current),
            final(self)@ == old(self)@.with_current(settled(old(self)@.current)),
            done ==> is_first_completion(final(self)@.current, old(self)@.current),
            !done ==> final(self)@.current == old(self)@.current,
            done && consistent(old(self)@.current) ==> is_solution(final(self)@.current)
                && each_digit_once(final(self)@.current),
        decreases blanks(old(self)@.current),
    {
        let ghost start = self@;
        let ghost g = self@.current;
        let empty_pos = self.get_empty();
        if empty_pos.is_none() {
            proof {
                lemma_full_grid(g);
                lemma_first_completion_is(g, g);
                if consistent(g) {
                    lemma_completions_of_consistent(g, g);
                    lemma_solution_has_each_digit_once(g);
                }
            }
            return true;
        }
        let (x, y) = empty_pos.unwrap();
        let mut n: u8 = 1;
        while n < 10
            invariant
                1 <= n <= 10,
                x < 9,
                y < 9,
                start.valid(),
                start == old(self)@,
                g == start.current,
                self@ == start,
                g[y as int][x as int] == 0,
                forall|i: int, j: int|
                    on_board(i, j) && comes_before(i, j, x as int, y as int)
                        ==> #[trigger] g[j][i] != 0,
                forall|o: Grid| #[trigger] completes(o, g) ==> o[y as int][x as int] >= n,
            decreases 10 - n,
        {
            if self.is_valid(n, x, y) {
                put(&mut self.board, x, y, n);
                let ghost h = with_cell(g, x as int, y as int, n);
                proof {
                    lemma_with_cell(g, x as int, y as int, n);
                    lemma_blanks_filled(g, x as int, y as int, n);
                    assert(self@.current == h);
                    assert(extends(h, start.given)) by {
                        assert(start.given[y as int][x as int] == 0);
                        assert forall|i: int, j: int|
                            on_board(i, j) && #[trigger] start.given[j][i] != 0 implies h[j][i]
                            == start.given[j][i] by {
                            assert(g[j][i] == start.given[j][i]);
                        }
                    }
                }
                if self.solve() {
                    proof {
                        let c = self@.current;
                        lemma_first_through_cell(g, c, x as int, y as int, n);
                        lemma_first_completion_is(g, c);
                        if consistent(g) {
                            lemma_completions_of_consistent(g, c);
                            lemma_solution_has_each_digit_once(c);
                        }
                        assert(extends(c, start.given)) by {
                            assert forall|i: int, j: int|
                                on_board(i, j) && #[trigger] start.given[j][i] != 0 implies c[j][i]
                                == start.given[j][i] by {
                                assert(g[j][i] == start.given[j][i]);
                            }
                        }
                    }
                    return true;
                }
                put(&mut self.board, x, y, 0);
                proof {
                    lemma_with_cell_again(g, x as int, y as int, n, 0);
                    assert(self@.current == g);
                    assert forall|o: Grid| #[trigger] completes(o, g) implies o[y as int][x as int]
                        != n by {
                        lemma_completion_fixes_cell(g, o, x as int, y as int);
                    }
                }
            } else {
                proof {
                    assert forall|o: Grid| #[trigger] completes(o, g) implies o[y as int][x as int]
                        != n by {
                        lemma_completion_fixes_cell(g, o, x as int, y as int);
                    }
                }
            }
            n += 1;
        }
        proof {
            assert forall|o: Grid| !completes(o, g) by {
                if completes(o, g) {
                    assert(o[y as int][x as int] <= 9);
                }
            }
        }
        false
    }

    /// The number of completions of the board, which it leaves as it was.
    /// A count that a `usize` cannot hold is given as `usize::MAX`.
    pub fn no_of_solns(&mut self) -> (count: usize)
        requires
            old(self).wf(),
        ensures
            final(self).wf(),
            final(self)@ == old(self)@,
            completions(old(self)@.current).finite(),
            count == min(completions(old(self)@.current).len() as int, usize::MAX as int),
            count == 0 <==> !has_completion(old(self)@.current),
            count == 1 <==> completions(old(self)@.current).len() == 1,
            count > 1 <==> completions(old(self)@.current).len() > 1,
        decreases blanks(old(self)@.current),
    {
        let ghost start = self@;
        let ghost g = self@.current;
        let empty_pos = self.get_empty();
        if empty_pos.is_none() {
            proof {
                lemma_full_grid(g);
                assert(completions(g).len() == 1);
                assert(completions(g).contains(g));
            }
            return 1;
        }
        let (x, y) = empty_pos.unwrap();
        let mut num_solutions: usize = 0;
        let mut n: u8 = 1;
        proof {
            lemma_completions_under_ends(g, x as int, y as int);
        }
        while n < 10
            invariant
                1 <= n <= 10,
                x < 9,
                y < 9,
                start.valid(),
                start == old(self)@,
                g == start.current,
                self@ == start,
                g[y as int][x as int] == 0,
                completions_under(g, x as int, y as int, n as int).finite(),
                num_solutions == min(
                    completions_under(g, x as int, y as int, n as int).len() as int,
                    usize::MAX as int,
                ),
            decreases 10 - n,
        {
            let ok = self.is_valid(n, x, y);
            let ghost h = with_cell(g, x as int, y as int, n);
            if ok {
                put(&mut self.board, x, y, n);
                proof {
                    lemma_with_cell(g, x as int, y as int, n);
                    lemma_blanks_filled(g, x as int, y as int, n);
                    assert(self@.current == h);
                    assert(extends(h, start.given)) by {
                        assert(start.given[y as int][x as int] == 0);
                        assert forall|i: int, j: int|
                            on_board(i, j) && #[trigger] start.given[j][i] != 0 implies h[j][i]
                            == start.given[j][i] by {
                            assert(g[j][i] == start.given[j][i]);
                        }
                    }
                }
                let sub = self.no_of_solns();
                num_solutions = num_solutions.saturating_add(sub);
                put(&mut self.board, x, y, 0);
                proof {
                    lemma_with_cell_again(g, x as int, y as int, n, 0);
                    assert(self@.current == g);
                }
            }
            proof {
                lemma_completions_under_next(g, x as int, y as int, n);
            }
            n += 1;
        }
        proof {
            assert(completions(g).len() > 0 <==> has_completion(g)) by {
                if completions(g).len() > 0 {
                    assert(completions(g).contains(completions(g).choose()));
                }
                if has_completion(g) {
                    let c = choose|c: Grid| completes(c, g);
                    assert(completions(g).contains(c));
                }
            }
        }
        num_solutions
    }
}

} // verus!
