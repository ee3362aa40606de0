//! Making a puzzle: random clues on a blank board, a search that completes
//! them, and one digit taken out again where the puzzle keeps a single
//! solution without it.

use crate::completion::{
    lemma_blanks_filled,
    lemma_blanks_with_cell,
    lemma_full_grid,
};
use crate::engine::{Puzzle, Sudoku, blank_rows, candidates, copy_rows, get, put};
use crate::grid::{
    Grid,
    blank_grid,
    blanks,
    blanks_among,
    completes,
    completions,
    consistent,
    extends,
    has_completion,
    is_first_completion,
    is_full,
    is_grid,
    is_solution,
    lemma_placeable_clear_of_peers,
    lemma_with_cell,
    lemma_with_cell_again,
    on_board,
    peers,
    placeable,
    settled,
    with_cell,
};
use crate::laws::lemma_one_blank;
use crate::random::{choose_one, gen_range_inclusive};
use rand::rngs::ThreadRng;
use rand::thread_rng;
use vstd::prelude::*;

verus! {

impl Puzzle {
    /// The puzzle with `d` written at `(x, y)` as a clue: on the board and
    /// among the clues.
    pub open spec fn with_clue(self, d: u8, x: int, y: int) -> Puzzle {
        Puzzle {
            current: with_cell(self.current, x, y, d),
            given: with_cell(self.given, x, y, d),
            solved: self.solved,
            assist: self.assist,
        }
    }

    /// The puzzle after its board has been searched and what the search
    /// left has been made its clues and its solution.
    pub open spec fn settled_down(self) -> Puzzle {
        Puzzle {
            current: settled(self.current),
            given: settled(self.current),
            solved: settled(self.current),
            assist: self.assist,
        }
    }

    /// What holds of every puzzle that `create_board` makes. The solution
    /// is what the search leaves of some sparse clues. The board shows the
    /// clues of the puzzle; no clue stands twice in a row, column or box;
    /// every clue agrees with the solution, and the clues are the solution
    /// but for at most one blank. Where the sparse clues could be completed,
    /// the solution is a solved grid, the puzzle has exactly one blank, and
    /// the solution is its only completion, so that a search of the clues
    /// gives the solution back. Where they could not, the solution holds the
    /// sparse clues alone, which nothing completes.
    pub open spec fn fresh(self) -> bool {
        &&& self.valid()
        &&& self.current == self.given
        &&& exists|seeds: Grid| #[trigger] sparse_clues(seeds) && self.solved == settled(seeds)
        &&& consistent(self.given)
        &&& extends(self.solved, self.given)
        &&& (self.given == self.solved || exists|x: int, y: int|
            on_board(x, y) && self.given == with_cell(self.solved, x, y, 0))
        &&& is_solution(self.solved) ==> {
            &&& blanks(self.given) == 1
            &&& completions(self.given) == set![self.solved]
            &&& settled(self.given) == self.solved
        }
        &&& !is_solution(self.solved) ==> {
            &&& sparse_clues(self.solved)
            &&& !has_completion(self.solved)
            &&& (settled(self.given) == self.solved || completions(self.given).len() == 1)
        }
    }

    /// Whether the board keeps exactly one completion when `(x, y)` is
    /// blanked.
    pub open spec fn spares(self, x: int, y: int) -> bool {
        completions(with_cell(self.current, x, y, 0)).len() == 1
    }

    /// The puzzle after an attempt to take the clue at `(x, y)` out: the
    /// cell is blank where the board keeps exactly one completion without
    /// it, and holds the digit of the solution otherwise.
    pub open spec fn carved(self, x: int, y: int) -> Puzzle {
        if self.spares(x, y) {
            self.with_clue(0, x, y)
        } else {
            self.with_clue(self.solved[y][x], x, y)
        }
    }
}

/// A draw of the making of a puzzle: a digit with the column and the row of
/// the cell that gets it.
pub type Draw = (u8, u8, u8);

/// The puzzle after the clues of `draws` have been written in turn.
pub open spec fn after_draws(p: Puzzle, draws: Seq<Draw>) -> Puzzle
    decreases draws.len(),
{
    if draws.len() == 0 {
        p
    } else {
        let e = draws.last();
        after_draws(p, draws.drop_last()).with_clue(e.0, e.1 as int, e.2 as int)
    }
}

/// Each draw of `draws` names a cell of the board, and its digit is one of
/// those to choose from at that cell when its turn comes: a digit that may
/// stand there, or the blank where none may.
pub open spec fn draws_fit(p: Puzzle, draws: Seq<Draw>) -> bool
    decreases draws.len(),
{
    if draws.len() == 0 {
        true
    } else {
        let e = draws.last();
        &&& draws_fit(p, draws.drop_last())
        &&& e.1 < 9
        &&& e.2 < 9
        &&& candidates(after_draws(p, draws.drop_last()).current, e.1 as int, e.2 as int).contains(
            e.0,
        )
    }
}

/// The puzzle of three blank grids.
pub open spec fn blank_puzzle() -> Puzzle {
    Puzzle { current: blank_grid(), given: blank_grid(), solved: blank_grid(), assist: false }
}

/// The puzzle that the draws of ten clues and of the cell `(x, y)` give:
/// the clues are written on the blank puzzle, the board is searched, and the
/// clue at `(x, y)` is taken out where the puzzle keeps a single solution
/// without it.
pub open spec fn made_from(draws: Seq<Draw>, x: int, y: int) -> Puzzle {
    after_draws(blank_puzzle(), draws).settled_down().carved(x, y)
}

/// `p` is a puzzle that some ten fitting draws and some cell give.
pub open spec fn is_made(p: Puzzle) -> bool {
    exists|draws: Seq<Draw>, x: int, y: int|
        draws.len() == 10 && draws_fit(blank_puzzle(), draws) && on_board(x, y) && p
            == #[trigger] made_from(draws, x, y)
}

/// What ten random clues on a blank board can be: a grid with at least 71
/// blanks in which no digit stands twice in a row, column or box.
pub open spec fn sparse_clues(g: Grid) -> bool {
    is_grid(g) && consistent(g) && blanks(g) >= 71
}

/// Among the first `k` cells of the blank grid all are blank.
proof fn lemma_blanks_among_blank(k: nat)
    requires
        k <= 81,
    ensures
        blanks_among(blank_grid(), k) == k,
    decreases k,
{
    if k > 0 {
        lemma_blanks_among_blank((k - 1) as nat);
        let p = (k - 1) as int;
        assert(on_board(p % 9, p / 9));
        assert(blank_grid()[p / 9][p % 9] == 0);
    }
}

/// A consistent grid stays consistent when a cell is blanked, and when a
/// digit is written where it is placeable.
pub proof fn lemma_clue_keeps_consistent(g: Grid, d: u8, x: int, y: int)
    requires
        is_grid(g),
        consistent(g),
        on_board(x, y),
        d == 0 || (1 <= d <= 9 && placeable(g, d, x, y)),
    ensures
        consistent(with_cell(g, x, y, d)),
{
    let h = with_cell(g, x, y, d);
    lemma_with_cell(g, x, y, d);
    if d != 0 {
        lemma_placeable_clear_of_peers(g, d, x, y);
    }
    assert forall|x1: int, y1: int, x2: int, y2: int|
        peers(x1, y1, x2, y2) && #[trigger] h[y1][x1] != 0 implies h[y1][x1] != #[trigger] h[y2][x2] by {
        if x1 == x && y1 == y {
            assert(h[y2][x2] == g[y2][x2]);
            assert(g[y2][x2] != d);
        } else if x2 == x && y2 == y {
            assert(h[y1][x1] == g[y1][x1]);
            assert(peers(x, y, x1, y1));
            assert(g[y1][x1] != d);
        } else {
            assert(h[y1][x1] == g[y1][x1]);
            assert(h[y2][x2] == g[y2][x2]);
        }
    }
}

/// Among the first `k` cells of a full grid none is blank.
proof fn lemma_blanks_among_full(g: Grid, k: nat)
    requires
        is_grid(g),
        is_full(g),
        k <= 81,
    ensures
        blanks_among(g, k) == 0,
    decreases k,
{
    if k > 0 {
        lemma_blanks_among_full(g, (k - 1) as nat);
        let p = (k - 1) as int;
        assert(on_board(p % 9, p / 9));
    }
}

/// A solved grid with one cell blanked has one blank.
pub proof fn lemma_one_blank_counted(s: Grid, x: int, y: int)
    requires
        is_grid(s),
        is_full(s),
        on_board(x, y),
    ensures
        blanks(s) == 0,
        blanks(with_cell(s, x, y, 0)) == 1,
{
    lemma_blanks_among_full(s, 81);
    let h = with_cell(s, x, y, 0);
    lemma_with_cell(s, x, y, 0);
    lemma_with_cell_again(s, x, y, 0, s[y][x]);
    lemma_with_cell_again(s, x, y, s[y][x], s[y][x]);
    assert(with_cell(h, x, y, s[y][x]) == s);
    lemma_blanks_filled(h, x, y, s[y][x]);
}

impl Sudoku {
    /// Writes `num` at `(x, y)` as a clue: on the board and among the
    /// clues.
    pub fn put_clue(&mut self, num: u8, x: u8, y: u8)
        requires
            old(self).wf(),
            x < 9,
            y < 9,
            num <= 9,
        ensures
            final(self).wf(),
            final(self)@ == old(self)@.with_clue(num, x as int, y as int),
    {
        put(&mut self.board, x, y, num);
        put(&mut self.initial_board, x, y, num);
        proof {
            lemma_with_cell(old(self)@.current, x as int, y as int, num);
            lemma_with_cell(old(self)@.given, x as int, y as int, num);
        }
    }

    /// Searches the board and makes what the search leaves the clues and
    /// the solution: the first completion of the board, or the board as it
    /// was where it has none. Returns whether the board was completed.
    pub fn settle(&mut self) -> (done: bool)
        requires
            old(self).wf(),
        ensures
            final(self).wf(),
            done == has_completion(old(self)@.current),
            final(self)@ == old(self)@.settled_down(),
            done ==> is_first_completion(final(self)@.solved, old(self)@.current),
            done && consistent(old(self)@.current) ==> is_solution(final(self)@.solved),
    {
        let done = self.solve();
        self.solved_board = copy_rows(&self.board);
        self.initial_board = copy_rows(&self.board);
        done
    }

    /// Tries to take the clue at `(x, y)` out. The cell is blanked on the
    /// board and among the clues; where the board then has not exactly one
    /// completion, the cell gets the digit of the solution back in both.
    /// Returns whether the cell stayed blank.
    pub fn carve(&mut self, x: u8, y: u8) -> (kept: bool)
        requires
            old(self).wf(),
            x < 9,
            y < 9,
        ensures
            final(self).wf(),
            kept == old(self)@.spares(x as int, y as int),
            final(self)@ == old(self)@.carved(x as int, y as int),
    {
        proof {
            lemma_with_cell(old(self)@.current, x as int, y as int, 0);
            lemma_with_cell(old(self)@.given, x as int, y as int, 0);
        }
        put(&mut self.board, x, y, 0);
        put(&mut self.initial_board, x, y, 0);
        if self.no_of_solns() != 1 {
            let d = get(&self.solved_board, x, y);
            put(&mut self.board, x, y, d);
            put(&mut self.initial_board, x, y, d);
            proof {
                lemma_with_cell(old(self)@.current, x as int, y as int, d);
                lemma_with_cell(old(self)@.given, x as int, y as int, d);
                lemma_with_cell_again(old(self)@.current, x as int, y as int, 0, d);
                lemma_with_cell_again(old(self)@.given, x as int, y as int, 0, d);
            }
            false
        } else {
            true
        }
    }

    /// Writes random clues: `rounds` times a random cell gets a random
    /// digit among those that may stand there, on the board and among the
    /// clues, or is blanked in both where no digit may stand there.
    ///
    /// Whatever is drawn, the puzzle is what `rounds` fitting draws make of
    /// it. So the solution stays as it was, at most `rounds` blanks of the
    /// board are filled, a board that shows the clues goes on showing them,
    /// and a board on which no digit stands twice in a row, column or box
    /// stays such a board.
    pub fn scatter_clues(&mut self, rng: &mut ThreadRng, rounds: u8)
        requires
            old(self).wf(),
        ensures
            final(self).wf(),
            exists|draws: Seq<Draw>|
                draws.len() == rounds && #[trigger] draws_fit(old(self)@, draws) && final(self)@
                    == after_draws(old(self)@, draws),
            final(self)@.solved == old(self)@.solved,
            final(self)@.assist == old(self)@.assist,
            blanks(final(self)@.current) + rounds >= blanks(old(self)@.current),
            old(self)@.current == old(self)@.given ==> final(self)@.current == final(self)@.given,
            consistent(old(self)@.current) ==> consistent(final(self)@.current),
    {
        let ghost mut draws: Seq<Draw> = Seq::empty();
        let mut round: u8 = 0;
        while round < rounds
            invariant
                round <= rounds,
                self.wf(),
                draws.len() == round,
                draws_fit(old(self)@, draws),
                self@ == after_draws(old(self)@, draws),
                self@.solved == old(self)@.solved,
                self@.assist == old(self)@.assist,
                blanks(self@.current) + round >= blanks(old(self)@.current),
                old(self)@.current == old(self)@.given ==> self@.current == self@.given,
                consistent(old(self)@.current) ==> consistent(self@.current),
            decreases rounds - round,
        {
            let x: u8 = gen_range_inclusive(rng, 0, 8);
            let y: u8 = gen_range_inclusive(rng, 0, 8);
            let nums = self.get_valid_nums(x, y);
            let picked = choose_one(rng, &nums);
            assert(picked.is_some());
            let num: u8 = picked.unwrap();
            proof {
                let i = choose|i: int| 0 <= i < nums@.len() && nums@[i] == num;
                assert(nums@[i] == num);
                if consistent(self@.current) {
                    lemma_clue_keeps_consistent(self@.current, num, x as int, y as int);
                }
                lemma_blanks_with_cell(self@.current, x as int, y as int, num);
                assert(draws.push((num, x, y)).drop_last() =~= draws);
                assert(draws.push((num, x, y)).last() == (num, x, y));
                draws = draws.push((num, x, y));
            }
            self.put_clue(num, x, y);
            round += 1;
        }
    }

    /// A new puzzle. Ten random clues are written on a blank board, as
    /// `scatter_clues` writes them; the board is then searched, and what the
    /// search leaves becomes clues and solution; last, one random clue is
    /// taken out where the puzzle keeps a single solution without it.
    ///
    /// Whatever is drawn, the puzzle is what some ten fitting draws and some
    /// cell give, and of each such puzzle `fresh` holds.
    pub fn create_board() -> (sudoku: Sudoku)
        ensures
            sudoku.wf(),
            is_made(sudoku@),
            sudoku@.fresh(),
            !sudoku@.assist,
            sudoku@.current == sudoku@.given,
            extends(sudoku@.solved, sudoku@.given),
            is_solution(sudoku@.solved) ==> settled(sudoku@.given) == sudoku@.solved,
    {
        let mut sudoku = Sudoku {
            initial_board: blank_rows(),
            solved_board: blank_rows(),
            help_player: false,
            board: blank_rows(),
        };
        proof {
            assert(sudoku@ == blank_puzzle());
            assert(consistent(blank_grid()));
            lemma_blanks_among_blank(81);
        }
        let mut rng = thread_rng();
        sudoku.scatter_clues(&mut rng, 10);
        let ghost draws = choose|draws: Seq<Draw>|
            draws.len() == 10 && #[trigger] draws_fit(blank_puzzle(), draws) && sudoku@
                == after_draws(blank_puzzle(), draws);
        let ghost seeded = sudoku@.current;
        assert(sparse_clues(seeded));
        let done = sudoku.settle();
        let ghost s = sudoku@.solved;
        assert(s == settled(seeded));
        assert(sudoku@.current == s && sudoku@.given == s);
        let x: u8 = gen_range_inclusive(&mut rng, 0, 8);
        let y: u8 = gen_range_inclusive(&mut rng, 0, 8);
        proof {
            lemma_with_cell(s, x as int, y as int, 0);
            lemma_with_cell_again(s, x as int, y as int, 0, 0);
            lemma_clue_keeps_consistent(s, 0, x as int, y as int);
            if done {
                lemma_one_blank(s, x as int, y as int);
                lemma_one_blank_counted(s, x as int, y as int);
            } else {
                assert(s == seeded);
                if is_solution(s) {
                    lemma_full_grid(s);
                }
            }
        }
        let kept = sudoku.carve(x, y);
        proof {
            let h = with_cell(s, x as int, y as int, 0);
            assert(on_board(x as int, y as int));
            assert(sudoku@ == made_from(draws, x as int, y as int));
            if kept {
                assert(sudoku@.given == with_cell(sudoku@.solved, x as int, y as int, 0));
                assert(extends(s, h));
            } else {
                assert(sudoku@.given == s);
            }
        }
        sudoku
    }
}

} // verus!
