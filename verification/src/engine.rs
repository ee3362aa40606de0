//! The board of the engine and what a player does with it: looking for the
//! first blank, checking a digit, entering a digit, starting over.

use crate::grid::{
    Grid,
    blank_grid,
    comes_before,
    extends,
    in_box,
    in_column,
    in_row,
    is_full,
    is_grid,
    lemma_with_cell,
    on_board,
    placeable,
    with_cell,
};
use vstd::prelude::*;

verus! {

/// The cells of a board of rows, as a grid.
pub open spec fn grid_of(rows: Vec<Vec<u8>>) -> Grid {
    Seq::new(rows@.len(), |y: int| rows@[y]@)
}

/// What a `Sudoku` stands for: the three grids and the assist flag.
pub struct Puzzle {
    /// What the player sees and edits.
    pub current: Grid,
    /// The clues; a blank marks a cell that the player may fill.
    pub given: Grid,
    /// The solution that entries are held against.
    pub solved: Grid,
    /// Whether wrong entries are to be pointed out.
    pub assist: bool,
}

impl Puzzle {
    /// The three grids are grids, and every clue stands in `current`.
    pub open spec fn valid(self) -> bool {
        &&& is_grid(self.current)
        &&& is_grid(self.given)
        &&& is_grid(self.solved)
        &&& extends(self.current, self.given)
    }

    /// The puzzle with another `current`.
    pub open spec fn with_current(self, current: Grid) -> Puzzle {
        Puzzle { current, given: self.given, solved: self.solved, assist: self.assist }
    }

    /// The puzzle after the player has entered `d` at `(x, y)`: nothing
    /// changes where `d` is no digit or the cell holds a clue; otherwise the
    /// cell of `current` holds `d`, whatever stands around it.
    pub open spec fn with_entry(self, d: u8, x: int, y: int) -> Puzzle {
        if d > 9 || self.given[y][x] != 0 {
            self
        } else {
            self.with_current(with_cell(self.current, x, y, d))
        }
    }

    /// The puzzle after the player has started over: `current` is `given`.
    pub open spec fn restarted(self) -> Puzzle {
        self.with_current(self.given)
    }
}

/// The digits that are placeable at `(x, y)`, in rising order.
pub open spec fn placeable_digits(g: Grid, x: int, y: int) -> Seq<u8> {
    seq![1u8, 2u8, 3u8, 4u8, 5u8, 6u8, 7u8, 8u8, 9u8].filter(|d: u8| placeable(g, d, x, y))
}

/// The digits to choose from at `(x, y)`: the placeable ones, or the lone
/// blank where there is none.
pub open spec fn candidates(g: Grid, x: int, y: int) -> Seq<u8> {
    if placeable_digits(g, x, y).len() == 0 {
        seq![0u8]
    } else {
        placeable_digits(g, x, y)
    }
}

/// The board with its clues and its solution.
pub struct Sudoku {
    /// What the player sees and edits.
    pub board: Vec<Vec<u8>>,
    /// The clues; a blank marks a cell that the player may fill.
    pub initial_board: Vec<Vec<u8>>,
    /// The solution that entries are held against.
    pub solved_board: Vec<Vec<u8>>,
    /// Whether wrong entries are to be pointed out.
    pub help_player: bool,
}

impl View for Sudoku {
    type V = Puzzle;

    open spec fn view(&self) -> Puzzle {
        Puzzle {
            current: grid_of(self.board),
            given: grid_of(self.initial_board),
            solved: grid_of(self.solved_board),
            assist: self.help_player,
        }
    }
}

/// Whether `rows` can be the board of a puzzle: nine rows of nine cells,
/// each cell `0..=9`.
pub fn is_board(rows: &Vec<Vec<u8>>) -> (ok: bool)
    ensures
        ok == is_grid(grid_of(*rows)),
{
    if rows.len() != 9 {
        return false;
    }
    let mut y: usize = 0;
    while y < 9
        invariant
            y <= 9,
            rows@.len() == 9,
            forall|j: int| 0 <= j < y ==> (#[trigger] grid_of(*rows)[j]).len() == 9,
            forall|i: int, j: int| 0 <= i < 9 && 0 <= j < y ==> #[trigger] grid_of(*rows)[j][i] <= 9,
        decreases 9 - y,
    {
        assert(grid_of(*rows)[y as int] == rows@[y as int]@);
        if rows[y].len() != 9 {
            return false;
        }
        let mut x: usize = 0;
        while x < 9
            invariant
                x <= 9,
                y < 9,
                rows@.len() == 9,
                rows@[y as int]@.len() == 9,
                grid_of(*rows)[y as int] == rows@[y as int]@,
                forall|i: int| 0 <= i < x ==> #[trigger] grid_of(*rows)[y as int][i] <= 9,
            decreases 9 - x,
        {
            if rows[y][x] > 9 {
                assert(on_board(x as int, y as int));
                assert(grid_of(*rows)[y as int][x as int] > 9);
                return false;
            }
            x += 1;
        }
        y += 1;
    }
    true
}

/// Nine rows of nine blanks.
pub(crate) fn blank_rows() -> (rows: Vec<Vec<u8>>)
    ensures
        grid_of(rows) == blank_grid(),
        is_grid(grid_of(rows)),
{
    let mut rows: Vec<Vec<u8>> = Vec::new();
    let mut y: usize = 0;
    while y < 9
        invariant
            y <= 9,
            rows@.len() == y,
            forall|j: int| 0 <= j < y ==> (#[trigger] rows@[j])@ == Seq::new(9, |x: int| 0u8),
        decreases 9 - y,
    {
        let mut row: Vec<u8> = Vec::new();
        let mut x: usize = 0;
        while x < 9
            invariant
                x <= 9,
                row@.len() == x,
                forall|i: int| 0 <= i < x ==> #[trigger] row@[i] == 0,
            decreases 9 - x,
        {
            row.push(0);
            x += 1;
        }
        assert(row@ =~= Seq::new(9, |x: int| 0u8));
        rows.push(row);
        y += 1;
    }
    assert(grid_of(rows) =~= blank_grid());
    rows
}

/// A board of its own with the same cells.
pub(crate) fn copy_rows(rows: &Vec<Vec<u8>>) -> (copy: Vec<Vec<u8>>)
    requires
        is_grid(grid_of(*rows)),
    ensures
        grid_of(copy) == grid_of(*rows),
{
    let mut copy: Vec<Vec<u8>> = Vec::new();
    let mut y: usize = 0;
    assert(rows@.len() == 9);
    while y < 9
        invariant
            y <= 9,
            rows@.len() == 9,
            is_grid(grid_of(*rows)),
            copy@.len() == y,
            forall|j: int| 0 <= j < y ==> (#[trigger] copy@[j])@ == rows@[j]@,
        decreases 9 - y,
    {
        let mut row: Vec<u8> = Vec::new();
        let mut x: usize = 0;
        assert(grid_of(*rows)[y as int].len() == 9);
        while x < 9
            invariant
                x <= 9,
                y < 9,
                rows@.len() == 9,
                rows@[y as int]@.len() == 9,
                row@.len() == x,
                forall|i: int| 0 <= i < x ==> #[trigger] row@[i] == rows@[y as int]@[i],
            decreases 9 - x,
        {
            row.push(rows[y][x]);
            x += 1;
        }
        assert(row@ =~= rows@[y as int]@);
        copy.push(row);
        y += 1;
    }
    assert(grid_of(copy) =~= grid_of(*rows));
    copy
}

/// Writes `d` into cell `(x, y)` of a board.
pub(crate) fn put(rows: &mut Vec<Vec<u8>>, x: u8, y: u8, d: u8)
    requires
        is_grid(grid_of(*old(rows))),
        x < 9,
        y < 9,
    ensures
        grid_of(*final(rows)) == with_cell(grid_of(*old(rows)), x as int, y as int, d),
{
    assert(grid_of(*rows)[y as int].len() == 9);
    rows[y as usize][x as usize] = d;
    assert(grid_of(*rows) =~~= with_cell(grid_of(*old(rows)), x as int, y as int, d));
}

/// Reads cell `(x, y)` of a board.
pub(crate) fn get(rows: &Vec<Vec<u8>>, x: u8, y: u8) -> (d: u8)
    requires
        is_grid(grid_of(*rows)),
        x < 9,
        y < 9,
    ensures
        d == grid_of(*rows)[y as int][x as int],
        d <= 9,
{
    assert(grid_of(*rows)[y as int].len() == 9);
    assert(on_board(x as int, y as int));
    rows[y as usize][x as usize]
}

impl Sudoku {
    /// The three boards are 9x9 with cells `0..=9`, and every clue stands on
    /// the board.
    pub open spec fn wf(&self) -> bool {
        self@.valid()
    }

    /// Whether the puzzle is well formed. A puzzle that `new` or
    /// `create_board` has made is, and stays so under every operation of this
    /// library; one put together by hand can be tested here.
    pub fn is_well_formed(&self) -> (ok: bool)
        ensures
            ok == self.wf(),
    {
        if !is_board(&self.board) || !is_board(&self.initial_board) || !is_board(
            &self.solved_board,
        ) {
            return false;
        }
        let mut y: u8 = 0;
        while y < 9
            invariant
                y <= 9,
                is_grid(self@.current),
                is_grid(self@.given),
                is_grid(self@.solved),
                forall|i: int, j: int|
                    on_board(i, j) && j < y && #[trigger] self@.given[j][i] != 0
                        ==> self@.current[j][i] == self@.given[j][i],
            decreases 9 - y,
        {
            let mut x: u8 = 0;
            while x < 9
                invariant
                    x <= 9,
                    y < 9,
                    is_grid(self@.current),
                    is_grid(self@.given),
                    is_grid(self@.solved),
                    forall|i: int, j: int|
                        on_board(i, j) && j < y && #[trigger] self@.given[j][i] != 0
                            ==> self@.current[j][i] == self@.given[j][i],
                    forall|i: int|
                        0 <= i < x && #[trigger] self@.given[y as int][i] != 0
                            ==> self@.current[y as int][i] == self@.given[y as int][i],
                decreases 9 - x,
            {
                let clue = get(&self.initial_board, x, y);
                if clue != 0 && get(&self.board, x, y) != clue {
                    assert(on_board(x as int, y as int));
                    assert(!extends(self@.current, self@.given));
                    return false;
                }
                x += 1;
            }
            y += 1;
        }
        true
    }

    /// The first blank cell of the board, read row by row, as `(x, y)`;
    /// `None` where the board is full.
    pub fn get_empty(&self) -> (found: Option<(u8, u8)>)
        requires
            is_grid(self@.current),
        ensures
            match found {
                Some((x, y)) => {
                    &&& on_board(x as int, y as int)
                    &&& self@.current[y as int][x as int] == 0
                    &&& forall|i: int, j: int|
                        on_board(i, j) && comes_before(i, j, x as int, y as int)
                            ==> #[trigger] self@.current[j][i] != 0
                },
                None => is_full(self@.current),
            },
    {
        let mut y: u8 = 0;
        while y < 9
            invariant
                y <= 9,
                is_grid(self@.current),
                forall|i: int, j: int|
                    on_board(i, j) && j < y ==> #[trigger] self@.current[j][i] != 0,
            decreases 9 - y,
        {
            let mut x: u8 = 0;
            while x < 9
                invariant
                    x <= 9,
                    y < 9,
                    is_grid(self@.current),
                    forall|i: int, j: int|
                        on_board(i, j) && j < y ==> #[trigger] self@.current[j][i] != 0,
                    forall|i: int| 0 <= i < x ==> #[trigger] self@.current[y as int][i] != 0,
                decreases 9 - x,
            {
                if get(&self.board, x, y) == 0 {
                    return Some((x, y));
                }
                x += 1;
            }
            y += 1;
        }
        None
    }

    /// Whether `num` may be written at `(x, y)`: it occurs neither in row
    /// `y`, nor in column `x`, nor in the box of `(x, y)`.
    pub fn is_valid(&self, num: u8, x: u8, y: u8) -> (ok: bool)
        requires
            is_grid(self@.current),
            x < 9,
            y < 9,
        ensures
            ok == placeable(self@.current, num, x as int, y as int),
            !ok <==> in_row(self@.current, num, y as int) || in_column(self@.current, num, x as int)
                || in_box(self@.current, num, x as int, y as int),
    {
        let ghost g = self@.current;
        let mut i: u8 = 0;
        while i < 9
            invariant
                i <= 9,
                x < 9,
                y < 9,
                g == self@.current,
                is_grid(g),
                forall|k: int| 0 <= k < i ==> #[trigger] g[y as int][k] != num,
                forall|k: int| 0 <= k < i ==> #[trigger] g[k][x as int] != num,
            decreases 9 - i,
        {
            if get(&self.board, i, y) == num {
                assert(in_row(g, num, y as int));
                return false;
            }
            if get(&self.board, x, i) == num {
                assert(in_column(g, num, x as int));
                return false;
            }
            i += 1;
        }
        let x0: u8 = x / 3 * 3;
        let y0: u8 = y / 3 * 3;
        let mut j: u8 = y0;
        while j < y0 + 3
            invariant
                y0 <= j <= y0 + 3,
                x0 == x as int / 3 * 3,
                y0 == y as int / 3 * 3,
                x < 9,
                y < 9,
                g == self@.current,
                is_grid(g),
                forall|a: int, b: int|
                    x0 <= a < x0 + 3 && y0 <= b < j ==> #[trigger] g[b][a] != num,
            decreases y0 + 3 - j,
        {
            let mut i: u8 = x0;
            while i < x0 + 3
                invariant
                    x0 <= i <= x0 + 3,
                    y0 <= j < y0 + 3,
                    x0 == x as int / 3 * 3,
                    y0 == y as int / 3 * 3,
                    x < 9,
                    y < 9,
                    g == self@.current,
                    is_grid(g),
                    forall|a: int, b: int|
                        x0 <= a < x0 + 3 && y0 <= b < j ==> #[trigger] g[b][a] != num,
                    forall|a: int| x0 <= a < i ==> #[trigger] g[j as int][a] != num,
                decreases x0 + 3 - i,
            {
                if get(&self.board, i, j) == num {
                    assert(in_box(g, num, x as int, y as int));
                    return false;
                }
                i += 1;
            }
            j += 1;
        }
        true
    }

    /// The digits to choose from at `(x, y)`: those of `1..=9` that may be
    /// written there, in rising order, or the lone blank where none may.
    pub fn get_valid_nums(&self, x: u8, y: u8) -> (nums: Vec<u8>)
        requires
            is_grid(self@.current),
            x < 9,
            y < 9,
        ensures
            nums@ == candidates(self@.current, x as int, y as int),
            nums@.len() >= 1,
            forall|i: int|
                0 <= i < nums@.len() ==> #[trigger] nums@[i] == 0 || (1 <= nums@[i] <= 9
                    && placeable(self@.current, nums@[i], x as int, y as int)),
    {
        let ghost g = self@.current;
        let ghost all = seq![1u8, 2u8, 3u8, 4u8, 5u8, 6u8, 7u8, 8u8, 9u8];
        let ghost pred = |d: u8| placeable(g, d, x as int, y as int);
        let mut nums: Vec<u8> = Vec::new();
        let mut n: u8 = 1;
        assert(all.take(0).filter(pred) =~= Seq::<u8>::empty());
        while n < 10
            invariant
                1 <= n <= 10,
                x < 9,
                y < 9,
                g == self@.current,
                is_grid(g),
                all == seq![1u8, 2u8, 3u8, 4u8, 5u8, 6u8, 7u8, 8u8, 9u8],
                pred == |d: u8| placeable(g, d, x as int, y as int),
                nums@ == all.take(n - 1).filter(pred),
                forall|i: int|
                    0 <= i < nums@.len() ==> 1 <= #[trigger] nums@[i] <= 9 && placeable(
                        g,
                        nums@[i],
                        x as int,
                        y as int,
                    ),
            decreases 10 - n,
        {
            let ok = self.is_valid(n, x, y);
            proof {
                assert(all.take(n as int) =~= all.take(n - 1).push(n));
                all.take(n - 1).lemma_filter_push(n, pred);
            }
            if ok {
                nums.push(n);
            }
            n += 1;
        }
        assert(all.take(9) =~= all);
        if nums.len() == 0 {
            let mut none: Vec<u8> = Vec::new();
            none.push(0);
            assert(none@ =~= seq![0u8]);
            return none;
        }
        nums
    }

    /// Enters `num` at `(x, y)`. Nothing happens where `num` is above 9 or
    /// the cell holds a clue; otherwise the cell holds `num` afterwards,
    /// whether or not it fits its row, column and box.
    pub fn set_cell(&mut self, num: u8, x: u8, y: u8)
        requires
            old(self).wf(),
            x < 9,
            y < 9,
        ensures
            final(self).wf(),
            final(self)@ == old(self)@.with_entry(num, x as int, y as int),
            num > 9 ==> final(self)@ == old(self)@,
            old(self)@.given[y as int][x as int] != 0 ==> final(self)@ == old(self)@,
    {
        if num > 9 {
            return ;
        }
        if get(&self.initial_board, x, y) == 0 {
            put(&mut self.board, x, y, num);
            proof {
                lemma_with_cell(old(self)@.current, x as int, y as int, num);
            }
        }
    }

    /// Starts over: the board is the clues again.
    pub fn reset(&mut self)
        requires
            old(self).wf(),
        ensures
            final(self).wf(),
            final(self)@ == old(self)@.restarted(),
            final(self)@.current == old(self)@.given,
    {
        self.board = copy_rows(&self.initial_board);
    }
}

} // verus!
