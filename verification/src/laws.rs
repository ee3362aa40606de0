//! Laws of the engine: what a solved grid looks like, that taking one digit
//! out of a solved grid leaves a puzzle with that grid as its only
//! solution, and that starting over undoes every entry.

use crate::completion::{
    lemma_completions_of_consistent,
    lemma_first_completion_exists,
    lemma_first_completion_is,
};
use crate::engine::Puzzle;
use crate::grid::{
    Grid,
    completes,
    completions,
    consistent,
    each_digit_once,
    extends,
    first_completion,
    has_completion,
    is_first_completion,
    is_grid,
    is_solution,
    lemma_same_cells,
    lemma_with_cell,
    on_board,
    once_in_box,
    once_in_column,
    once_in_row,
    peers,
    settled,
    with_cell,
};
use vstd::prelude::*;
use vstd::seq_lib::seq_to_set_is_finite;
use vstd::set_lib::{lemma_int_range, lemma_subset_equality, set_int_range};

verus! {

/// Nine different digits are all the digits: each of `1..=9` is among them.
pub proof fn lemma_nine_digits(cells: Seq<u8>, d: u8)
    requires
        cells.len() == 9,
        forall|i: int| 0 <= i < 9 ==> 1 <= #[trigger] cells[i] <= 9,
        forall|i: int, j: int| 0 <= i < 9 && 0 <= j < 9 && i != j ==> cells[i] != cells[j],
        1 <= d <= 9,
    ensures
        exists|i: int| 0 <= i < 9 && cells[i] == d,
{
    let values = Seq::new(9, |i: int| cells[i] as int);
    assert(values.no_duplicates());
    values.unique_seq_to_set();
    seq_to_set_is_finite(values);
    lemma_int_range(1, 10);
    assert(values.to_set().subset_of(set_int_range(1, 10))) by {
        assert forall|v: int| values.to_set().contains(v) implies set_int_range(1, 10).contains(
            v,
        ) by {
            let i = choose|i: int| 0 <= i < values.len() && values[i] == v;
            assert(1 <= cells[i] <= 9);
        }
    }
    lemma_subset_equality(values.to_set(), set_int_range(1, 10));
    assert(set_int_range(1, 10).contains(d as int));
    assert(values.to_set().contains(d as int));
    let i = choose|i: int| 0 <= i < values.len() && values[i] == d as int;
    assert(cells[i] == d);
}

/// In a solved grid each digit stands exactly once in each row.
pub proof fn lemma_solution_row(s: Grid, d: u8, y: int)
    requires
        is_solution(s),
        1 <= d <= 9,
        0 <= y < 9,
    ensures
        once_in_row(s, d, y),
{
    let row = Seq::new(9, |i: int| s[y][i]);
    assert forall|i: int, j: int| 0 <= i < 9 && 0 <= j < 9 && i != j implies row[i] != row[j] by {
        assert(peers(i, y, j, y));
        assert(s[y][i] != s[y][j]);
    }
    assert forall|i: int| 0 <= i < 9 implies 1 <= #[trigger] row[i] <= 9 by {
        assert(on_board(i, y));
        assert(s[y][i] != 0);
    }
    lemma_nine_digits(row, d);
    let x = choose|i: int| 0 <= i < 9 && row[i] == d;
    assert(s[y][x] == d);
    assert forall|i: int| 0 <= i < 9 && #[trigger] s[y][i] == d implies i == x by {
        if i != x {
            assert(peers(i, y, x, y));
        }
    }
}

/// In a solved grid each digit stands exactly once in each column.
pub proof fn lemma_solution_column(s: Grid, d: u8, x: int)
    requires
        is_solution(s),
        1 <= d <= 9,
        0 <= x < 9,
    ensures
        once_in_column(s, d, x),
{
    let column = Seq::new(9, |j: int| s[j][x]);
    assert forall|i: int, j: int| 0 <= i < 9 && 0 <= j < 9 && i != j implies column[i]
        != column[j] by {
        assert(peers(x, i, x, j));
        assert(s[i][x] != s[j][x]);
    }
    assert forall|j: int| 0 <= j < 9 implies 1 <= #[trigger] column[j] <= 9 by {
        assert(on_board(x, j));
        assert(s[j][x] != 0);
    }
    lemma_nine_digits(column, d);
    let y = choose|j: int| 0 <= j < 9 && column[j] == d;
    assert(s[y][x] == d);
    assert forall|j: int| 0 <= j < 9 && #[trigger] s[j][x] == d implies j == y by {
        if j != y {
            assert(peers(x, j, x, y));
        }
    }
}

/// In a solved grid each digit stands exactly once in each box.
pub proof fn lemma_solution_box(s: Grid, d: u8, bx: int, by: int)
    requires
        is_solution(s),
        1 <= d <= 9,
        0 <= bx < 3,
        0 <= by < 3,
    ensures
        once_in_box(s, d, bx, by),
{
    let boxed = Seq::new(9, |k: int| s[3 * by + k / 3][3 * bx + k % 3]);
    assert forall|i: int, j: int| 0 <= i < 9 && 0 <= j < 9 && i != j implies boxed[i]
        != boxed[j] by {
        assert(peers(3 * bx + i % 3, 3 * by + i / 3, 3 * bx + j % 3, 3 * by + j / 3));
        assert(s[3 * by + i / 3][3 * bx + i % 3] != s[3 * by + j / 3][3 * bx + j % 3]);
    }
    assert forall|k: int| 0 <= k < 9 implies 1 <= #[trigger] boxed[k] <= 9 by {
        assert(on_board(3 * bx + k % 3, 3 * by + k / 3));
        assert(s[3 * by + k / 3][3 * bx + k % 3] != 0);
    }
    lemma_nine_digits(boxed, d);
    let k = choose|k: int| 0 <= k < 9 && boxed[k] == d;
    let u = 3 * bx + k % 3;
    let v = 3 * by + k / 3;
    assert(s[v][u] == d);
    assert forall|i: int, j: int|
        3 * bx <= i < 3 * bx + 3 && 3 * by <= j < 3 * by + 3 && #[trigger] s[j][i]
            == d implies i == u && j == v by {
        if i != u || j != v {
            assert(peers(i, j, u, v));
        }
    }
}

/// In a solved grid every row, every column and every box holds each digit
/// once.
pub proof fn lemma_solution_has_each_digit_once(s: Grid)
    requires
        is_solution(s),
    ensures
        each_digit_once(s),
{
    assert forall|d: u8, y: int| 1 <= d <= 9 && 0 <= y < 9 implies #[trigger] once_in_row(
        s,
        d,
        y,
    ) by {
        lemma_solution_row(s, d, y);
    }
    assert forall|d: u8, x: int| 1 <= d <= 9 && 0 <= x < 9 implies #[trigger] once_in_column(
        s,
        d,
        x,
    ) by {
        lemma_solution_column(s, d, x);
    }
    assert forall|d: u8, bx: int, by: int|
        1 <= d <= 9 && 0 <= bx < 3 && 0 <= by < 3 implies #[trigger] once_in_box(s, d, bx, by) by {
        lemma_solution_box(s, d, bx, by);
    }
}

/// A grid in which every row, every column and every box holds each digit
/// once is solved.
pub proof fn lemma_each_digit_once_is_solution(s: Grid)
    requires
        is_grid(s),
        each_digit_once(s),
    ensures
        is_solution(s),
{
    assert forall|x: int, y: int| on_board(x, y) implies #[trigger] s[y][x] != 0 by {
        lemma_row_needs_all_cells(s, x, y);
    }
    assert forall|x1: int, y1: int, x2: int, y2: int|
        peers(x1, y1, x2, y2) && #[trigger] s[y1][x1] != 0 implies s[y1][x1] != #[trigger] s[y2][x2] by {
        lemma_peers_differ(s, x1, y1, x2, y2);
    }
}

/// Where each digit stands once in every row, column and box, two cells of
/// one row, column or box hold different digits.
proof fn lemma_peers_differ(s: Grid, x1: int, y1: int, x2: int, y2: int)
    requires
        is_grid(s),
        each_digit_once(s),
        peers(x1, y1, x2, y2),
        s[y1][x1] != 0,
    ensures
        s[y1][x1] != s[y2][x2],
{
    let d = s[y1][x1];
    assert(1 <= d <= 9);
    if s[y2][x2] == d {
        if y1 == y2 {
            assert(once_in_row(s, d, y1));
        } else if x1 == x2 {
            assert(once_in_column(s, d, x1));
        } else {
            assert(once_in_box(s, d, x1 / 3, y1 / 3));
        }
    }
}

/// Where each digit stands in a row, no cell of the row is blank.
proof fn lemma_row_needs_all_cells(s: Grid, x: int, y: int)
    requires
        is_grid(s),
        on_board(x, y),
        forall|d: u8| 1 <= d <= 9 ==> #[trigger] once_in_row(s, d, y),
    ensures
        s[y][x] != 0,
{
    // where each digit stands: nine different columns, so all of them
    let places = Seq::new(9, |d: int| choose|i: int| 0 <= i < 9 && s[y][i] == (d + 1) as u8);
    assert forall|d: int| 0 <= d < 9 implies 0 <= #[trigger] places[d] < 9 && s[y][places[d]] == (d
        + 1) as u8 by {
        assert(once_in_row(s, (d + 1) as u8, y));
    }
    let columns = Seq::new(9, |d: int| (places[d] + 1) as u8);
    assert forall|d: int, e: int| 0 <= d < 9 && 0 <= e < 9 && d != e implies columns[d]
        != columns[e] by {
        assert(s[y][places[d]] == (d + 1) as u8);
        assert(s[y][places[e]] == (e + 1) as u8);
    }
    assert forall|d: int| 0 <= d < 9 implies 1 <= #[trigger] columns[d] <= 9 by {
        assert(0 <= places[d] < 9);
    }
    lemma_nine_digits(columns, (x + 1) as u8);
    let d = choose|d: int| 0 <= d < 9 && columns[d] == (x + 1) as u8;
    assert(places[d] == x);
    assert(s[y][x] == (d + 1) as u8);
}

/// A grid in which no digit stands twice can be completed exactly when a
/// solved grid extends it, and what the search leaves of it is then such a
/// solved grid: every row, column and box of it holds each digit once.
pub proof fn lemma_search_solves(g: Grid)
    requires
        is_grid(g),
        consistent(g),
    ensures
        has_completion(g) <==> exists|s: Grid| #[trigger] is_solution(s) && extends(s, g),
        has_completion(g) ==> is_solution(settled(g)) && extends(settled(g), g) && each_digit_once(
            settled(g),
        ),
{
    if has_completion(g) {
        let c = choose|c: Grid| completes(c, g);
        lemma_completions_of_consistent(g, c);
        assert(is_solution(c) && extends(c, g));
    }
    if exists|s: Grid| #[trigger] is_solution(s) && extends(s, g) {
        let s = choose|s: Grid| #[trigger] is_solution(s) && extends(s, g);
        lemma_completions_of_consistent(g, s);
        assert(completes(s, g));
    }
    if has_completion(g) {
        lemma_first_completion_exists(g);
        let f = first_completion(g);
        lemma_completions_of_consistent(g, f);
        lemma_solution_has_each_digit_once(f);
    }
}

/// Taking one digit out of a solved grid leaves a puzzle that the solved
/// grid alone completes: to solve it again gives the solved grid back.
pub proof fn lemma_one_blank(s: Grid, x: int, y: int)
    requires
        is_solution(s),
        on_board(x, y),
    ensures
        consistent(with_cell(s, x, y, 0)),
        completions(with_cell(s, x, y, 0)) == set![s],
        completions(with_cell(s, x, y, 0)).len() == 1,
        first_completion(with_cell(s, x, y, 0)) == s,
        settled(with_cell(s, x, y, 0)) == s,
{
    let h = with_cell(s, x, y, 0);
    lemma_with_cell(s, x, y, 0);
    assert(consistent(h)) by {
        assert forall|x1: int, y1: int, x2: int, y2: int|
            peers(x1, y1, x2, y2) && #[trigger] h[y1][x1] != 0 implies h[y1][x1] != #[trigger] h[y2][x2] by {
            assert(h[y1][x1] == s[y1][x1]);
            if x2 != x || y2 != y {
                assert(h[y2][x2] == s[y2][x2]);
            }
        }
    }
    assert(extends(s, h)) by {
        assert forall|i: int, j: int| on_board(i, j) && #[trigger] h[j][i] != 0 implies s[j][i]
            == h[j][i] by {}
    }
    lemma_completions_of_consistent(h, s);
    assert(completes(s, h));
    assert forall|c: Grid| #[trigger] completes(c, h) implies c == s by {
        let d = c[y][x];
        assert(1 <= d <= 9) by {
            assert(c[y][x] != 0);
        }
        lemma_solution_row(s, d, y);
        let i = choose|i: int|
            0 <= i < 9 && #[trigger] s[y][i] == d && forall|k: int|
                0 <= k < 9 && #[trigger] s[y][k] == d ==> k == i;
        if i != x {
            assert(peers(x, y, i, y));
            assert(h[y][i] == s[y][i]);
            assert(c[y][i] == h[y][i]);
            assert(c[y][x] != c[y][i]);
        }
        assert forall|u: int, v: int| on_board(u, v) implies #[trigger] c[v][u] == s[v][u] by {
            if u != x || v != y {
                assert(h[v][u] == s[v][u]);
                assert(h[v][u] != 0);
            }
        }
        lemma_same_cells(c, s);
    }
    assert(completions(h) =~= set![s]);
    assert(is_first_completion(s, h));
    lemma_first_completion_is(h, s);
}

/// The puzzle after the player has made the entries of `entries` in turn,
/// each a digit with its column and its row.
pub open spec fn after_entries(p: Puzzle, entries: Seq<(u8, u8, u8)>) -> Puzzle
    decreases entries.len(),
{
    if entries.len() == 0 {
        p
    } else {
        let e = entries.last();
        after_entries(p, entries.drop_last()).with_entry(e.0, e.1 as int, e.2 as int)
    }
}

/// Whatever the player has entered, the clues stay as they were and stand
/// on the board, and starting over gives the clues back, cell for cell.
pub proof fn lemma_reset_undoes_entries(p: Puzzle, entries: Seq<(u8, u8, u8)>)
    requires
        p.valid(),
        forall|k: int|
            0 <= k < entries.len() ==> on_board(
                (#[trigger] entries[k]).1 as int,
                entries[k].2 as int,
            ),
    ensures
        after_entries(p, entries).valid(),
        after_entries(p, entries).given == p.given,
        after_entries(p, entries).solved == p.solved,
        after_entries(p, entries).restarted().current == p.given,
        after_entries(p, entries).restarted() == p.restarted(),
    decreases entries.len(),
{
    if entries.len() > 0 {
        let e = entries.last();
        let before = after_entries(p, entries.drop_last());
        assert forall|k: int| 0 <= k < entries.drop_last().len() implies on_board(
            (#[trigger] entries.drop_last()[k]).1 as int,
            entries.drop_last()[k].2 as int,
        ) by {
            assert(entries.drop_last()[k] == entries[k]);
        }
        lemma_reset_undoes_entries(p, entries.drop_last());
        lemma_entry_keeps_valid(before, e.0, e.1 as int, e.2 as int);
    }
}

/// An entry leaves a valid puzzle valid, and its clues and solution alone.
pub proof fn lemma_entry_keeps_valid(p: Puzzle, d: u8, x: int, y: int)
    requires
        p.valid(),
        on_board(x, y),
    ensures
        p.with_entry(d, x, y).valid(),
        p.with_entry(d, x, y).given == p.given,
        p.with_entry(d, x, y).solved == p.solved,
        d > 9 || p.given[y][x] != 0 ==> p.with_entry(d, x, y) == p,
{
    if d <= 9 && p.given[y][x] == 0 {
        lemma_with_cell(p.current, x, y, d);
    }
}

} // verus!
