//! The mathematical model of a Sudoku grid.
//!
//! A grid is a sequence of nine rows of nine cells. A cell holds a digit
//! `1..=9`, or `0` when it is blank. The cell in column `x` of row `y` is
//! `g[y][x]`. Everything the engine promises is stated over the predicates of
//! this module.

use vstd::prelude::*;

verus! {

/// Nine rows of nine cells, row by row.
pub type Grid = Seq<Seq<u8>>;

/// Whether `(x, y)` names a cell: column `x` of row `y`.
pub open spec fn on_board(x: int, y: int) -> bool {
    0 <= x < 9 && 0 <= y < 9
}

/// Nine rows of nine cells, each cell `0..=9`.
pub open spec fn is_grid(g: Grid) -> bool {
    &&& g.len() == 9
    &&& forall|y: int| 0 <= y < 9 ==> (#[trigger] g[y]).len() == 9
    &&& forall|x: int, y: int| on_board(x, y) ==> #[trigger] g[y][x] <= 9
}

/// The grid whose every cell is blank.
pub open spec fn blank_grid() -> Grid {
    Seq::new(9, |y: int| Seq::new(9, |x: int| 0u8))
}

/// `g` with cell `(x, y)` replaced by `d`.
pub open spec fn with_cell(g: Grid, x: int, y: int, d: u8) -> Grid {
    g.update(y, g[y].update(x, d))
}

/// Two different cells that share a row, a column or a 3x3 box.
pub open spec fn peers(x1: int, y1: int, x2: int, y2: int) -> bool {
    &&& on_board(x1, y1)
    &&& on_board(x2, y2)
    &&& (x1 != x2 || y1 != y2)
    &&& (y1 == y2 || x1 == x2 || (x1 / 3 == x2 / 3 && y1 / 3 == y2 / 3))
}

/// `d` stands somewhere in row `y`.
pub open spec fn in_row(g: Grid, d: u8, y: int) -> bool {
    exists|i: int| 0 <= i < 9 && #[trigger] g[y][i] == d
}

/// `d` stands somewhere in column `x`.
pub open spec fn in_column(g: Grid, d: u8, x: int) -> bool {
    exists|j: int| 0 <= j < 9 && #[trigger] g[j][x] == d
}

/// `d` stands somewhere in the 3x3 box that holds `(x, y)`; the box begins
/// at column `x / 3 * 3` and row `y / 3 * 3`.
pub open spec fn in_box(g: Grid, d: u8, x: int, y: int) -> bool {
    exists|i: int, j: int|
        x / 3 * 3 <= i < x / 3 * 3 + 3 && y / 3 * 3 <= j < y / 3 * 3 + 3 && #[trigger] g[j][i]
            == d
}

/// `d` occurs neither in row `y`, nor in column `x`, nor in the box of
/// `(x, y)`. The cell `(x, y)` itself is looked at like any other.
pub open spec fn placeable(g: Grid, d: u8, x: int, y: int) -> bool {
    !in_row(g, d, y) && !in_column(g, d, x) && !in_box(g, d, x, y)
}

/// No cell is blank.
pub open spec fn is_full(g: Grid) -> bool {
    forall|x: int, y: int| on_board(x, y) ==> #[trigger] g[y][x] != 0
}

/// `c` keeps every digit of `g`.
pub open spec fn extends(c: Grid, g: Grid) -> bool {
    forall|x: int, y: int|
        #![trigger g[y][x]]
        #![trigger c[y][x]]
        on_board(x, y) && g[y][x] != 0 ==> c[y][x] == g[y][x]
}

/// No digit stands twice in a row, a column or a box.
pub open spec fn consistent(g: Grid) -> bool {
    forall|x1: int, y1: int, x2: int, y2: int|
        peers(x1, y1, x2, y2) && #[trigger] g[y1][x1] != 0 ==> g[y1][x1] != #[trigger] g[y2][x2]
}

/// A full grid in which every row, column and box holds no digit twice.
pub open spec fn is_solution(g: Grid) -> bool {
    is_grid(g) && is_full(g) && consistent(g)
}

/// `d` stands in exactly one cell of row `y`.
pub open spec fn once_in_row(g: Grid, d: u8, y: int) -> bool {
    exists|x: int|
        0 <= x < 9 && #[trigger] g[y][x] == d && forall|i: int|
            0 <= i < 9 && #[trigger] g[y][i] == d ==> i == x
}

/// `d` stands in exactly one cell of column `x`.
pub open spec fn once_in_column(g: Grid, d: u8, x: int) -> bool {
    exists|y: int|
        0 <= y < 9 && #[trigger] g[y][x] == d && forall|j: int|
            0 <= j < 9 && #[trigger] g[j][x] == d ==> j == y
}

/// `d` stands in exactly one cell of the box that begins at column `3 * bx`
/// and row `3 * by`.
pub open spec fn once_in_box(g: Grid, d: u8, bx: int, by: int) -> bool {
    exists|x: int, y: int|
        3 * bx <= x < 3 * bx + 3 && 3 * by <= y < 3 * by + 3 && #[trigger] g[y][x] == d
            && forall|i: int, j: int|
            3 * bx <= i < 3 * bx + 3 && 3 * by <= j < 3 * by + 3 && #[trigger] g[j][i] == d ==> i
                == x && j == y
}

/// Every row, every column and every box holds each digit `1..=9` exactly
/// once.
pub open spec fn each_digit_once(g: Grid) -> bool {
    &&& forall|d: u8, y: int| 1 <= d <= 9 && 0 <= y < 9 ==> #[trigger] once_in_row(g, d, y)
    &&& forall|d: u8, x: int| 1 <= d <= 9 && 0 <= x < 9 ==> #[trigger] once_in_column(g, d, x)
    &&& forall|d: u8, bx: int, by: int|
        1 <= d <= 9 && 0 <= bx < 3 && 0 <= by < 3 ==> #[trigger] once_in_box(g, d, bx, by)
}

/// `c` is what a search may reach from `g`: a full grid that keeps the
/// digits of `g`, in which no digit written into a blank of `g` meets its
/// like in a row, column or box. Digits that `g` already holds are not
/// compared with each other: the search never looks at them. For a
/// consistent `g` the completions of `g` are the solutions that extend it
/// (see `lemma_completions_of_consistent`).
pub open spec fn completes(c: Grid, g: Grid) -> bool {
    &&& is_grid(c)
    &&& is_full(c)
    &&& extends(c, g)
    &&& forall|x1: int, y1: int, x2: int, y2: int|
        peers(x1, y1, x2, y2) && g[y1][x1] == 0 ==> #[trigger] c[y1][x1] != #[trigger] c[y2][x2]
}

/// Some grid completes `g`.
pub open spec fn has_completion(g: Grid) -> bool {
    exists|c: Grid| completes(c, g)
}

/// All the grids that complete `g`.
pub open spec fn completions(g: Grid) -> Set<Grid> {
    Set::new(|c: Grid| completes(c, g))
}

/// Cell `(x1, y1)` is read before `(x2, y2)` when the grid is read row by
/// row, each row from left to right.
pub open spec fn comes_before(x1: int, y1: int, x2: int, y2: int) -> bool {
    y1 < y2 || (y1 == y2 && x1 < x2)
}

/// `a` and `b` hold the same in every cell read before `(x, y)`.
pub open spec fn agree_before(a: Grid, b: Grid, x: int, y: int) -> bool {
    forall|i: int, j: int|
        #![trigger a[j][i]]
        #![trigger b[j][i]]
        on_board(i, j) && comes_before(i, j, x, y) ==> a[j][i] == b[j][i]
}

/// `a` is smaller than `b` at the first cell where the two differ.
pub open spec fn precedes(a: Grid, b: Grid) -> bool {
    exists|x: int, y: int|
        on_board(x, y) && #[trigger] a[y][x] < b[y][x] && agree_before(a, b, x, y)
}

/// `c` completes `g` and precedes every other completion of `g`.
pub open spec fn is_first_completion(c: Grid, g: Grid) -> bool {
    &&& completes(c, g)
    &&& forall|o: Grid| #[trigger] completes(o, g) ==> o == c || precedes(c, o)
}

/// The completion of `g` that precedes all its others, where `g` has one.
pub open spec fn first_completion(g: Grid) -> Grid {
    choose|c: Grid| is_first_completion(c, g)
}

/// What a search leaves of `g`: its first completion, or `g` itself where
/// it has none.
pub open spec fn settled(g: Grid) -> Grid {
    if has_completion(g) {
        first_completion(g)
    } else {
        g
    }
}

/// The number of blank cells among the first `k` cells read row by row.
pub open spec fn blanks_among(g: Grid, k: nat) -> nat
    decreases k,
{
    if k == 0 {
        0
    } else {
        let p = (k - 1) as int;
        blanks_among(g, (k - 1) as nat) + if g[p / 9][p % 9] == 0 {
            1nat
        } else {
            0nat
        }
    }
}

/// The number of blank cells of `g`.
pub open spec fn blanks(g: Grid) -> nat {
    blanks_among(g, 81)
}

/// Two grids with the same cells are the same grid.
pub proof fn lemma_same_cells(a: Grid, b: Grid)
    requires
        is_grid(a),
        is_grid(b),
        forall|x: int, y: int| on_board(x, y) ==> #[trigger] a[y][x] == b[y][x],
    ensures
        a == b,
{
    assert forall|y: int| 0 <= y < 9 implies a[y] == b[y] by {
        assert forall|x: int| 0 <= x < 9 implies a[y][x] == b[y][x] by {
            assert(on_board(x, y));
        }
        assert(a[y] =~= b[y]);
    }
    assert(a =~= b);
}

/// Writing a digit into a cell gives a grid again, and touches no other
/// cell.
pub proof fn lemma_with_cell(g: Grid, x: int, y: int, d: u8)
    requires
        is_grid(g),
        on_board(x, y),
        d <= 9,
    ensures
        is_grid(with_cell(g, x, y, d)),
        with_cell(g, x, y, d)[y][x] == d,
        forall|i: int, j: int|
            on_board(i, j) && (i != x || j != y) ==> #[trigger] with_cell(g, x, y, d)[j][i]
                == g[j][i],
{
    let h = with_cell(g, x, y, d);
    assert forall|i: int, j: int| on_board(i, j) implies #[trigger] h[j][i] <= 9 && ((i != x || j
        != y) ==> h[j][i] == g[j][i]) by {
        assert(g[j][i] <= 9);
    }
}

/// Writing into a cell what it already holds changes nothing; writing twice
/// into one cell keeps the second digit.
pub proof fn lemma_with_cell_again(g: Grid, x: int, y: int, d: u8, e: u8)
    requires
        is_grid(g),
        on_board(x, y),
        d <= 9,
        e <= 9,
    ensures
        with_cell(g, x, y, g[y][x]) == g,
        with_cell(with_cell(g, x, y, d), x, y, e) == with_cell(g, x, y, e),
{
    assert(with_cell(g, x, y, g[y][x])[y] =~= g[y]);
    assert(with_cell(g, x, y, g[y][x]) =~= g);
    assert(with_cell(with_cell(g, x, y, d), x, y, e)[y] =~= with_cell(g, x, y, e)[y]);
    assert(with_cell(with_cell(g, x, y, d), x, y, e) =~= with_cell(g, x, y, e));
}

/// A digit that is placeable at a cell is held by none of the cell's peers.
pub proof fn lemma_placeable_clear_of_peers(g: Grid, d: u8, x: int, y: int)
    requires
        is_grid(g),
        on_board(x, y),
        placeable(g, d, x, y),
    ensures
        forall|i: int, j: int| peers(x, y, i, j) ==> #[trigger] g[j][i] != d,
{
    assert forall|i: int, j: int| peers(x, y, i, j) implies #[trigger] g[j][i] != d by {
        if j == y {
            assert(!in_row(g, d, y));
        } else if i == x {
            assert(!in_column(g, d, x));
        } else {
            assert(!in_box(g, d, x, y));
            assert(x / 3 * 3 <= i < x / 3 * 3 + 3);
            assert(y / 3 * 3 <= j < y / 3 * 3 + 3);
        }
    }
}

/// A digit is placeable at a blank cell exactly when none of the cell's
/// peers holds it.
pub proof fn lemma_placeable_peers(g: Grid, d: u8, x: int, y: int)
    requires
        is_grid(g),
        on_board(x, y),
        g[y][x] == 0,
        d != 0,
    ensures
        placeable(g, d, x, y) <==> (forall|i: int, j: int|
            peers(x, y, i, j) ==> #[trigger] g[j][i] != d),
{
    if placeable(g, d, x, y) {
        lemma_placeable_clear_of_peers(g, d, x, y);
    }
    if forall|i: int, j: int| peers(x, y, i, j) ==> #[trigger] g[j][i] != d {
        assert forall|i: int| 0 <= i < 9 implies #[trigger] g[y][i] != d by {
            if i != x {
                assert(peers(x, y, i, y));
            }
        }
        assert forall|j: int| 0 <= j < 9 implies #[trigger] g[j][x] != d by {
            if j != y {
                assert(peers(x, y, x, j));
            }
        }
        assert forall|i: int, j: int|
            x / 3 * 3 <= i < x / 3 * 3 + 3 && y / 3 * 3 <= j < y / 3 * 3 + 3 implies #[trigger] g[j][i]
            != d by {
            if i != x || j != y {
                assert(peers(x, y, i, j));
            }
        }
    }
}

} // verus!
