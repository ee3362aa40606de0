//! What holds of the completions of a grid: how they split by the digit
//! written into one blank cell, which of them comes first, and how many
//! there are. The search and the count of the engine are proved from these.

use crate::grid::{
    Grid,
    agree_before,
    blanks,
    blanks_among,
    comes_before,
    completes,
    completions,
    consistent,
    extends,
    first_completion,
    has_completion,
    is_first_completion,
    is_full,
    is_grid,
    is_solution,
    lemma_placeable_peers,
    lemma_same_cells,
    lemma_with_cell,
    on_board,
    peers,
    placeable,
    precedes,
    settled,
    with_cell,
};
use vstd::prelude::*;
use vstd::set_lib::lemma_set_disjoint_lens;

verus! {

/// A full grid has one completion: itself.
pub proof fn lemma_full_grid(g: Grid)
    requires
        is_grid(g),
        is_full(g),
    ensures
        completes(g, g),
        forall|c: Grid| #[trigger] completes(c, g) ==> c == g,
        is_first_completion(g, g),
        completions(g) == set![g],
{
    assert forall|c: Grid| #[trigger] completes(c, g) implies c == g by {
        assert forall|x: int, y: int| on_board(x, y) implies #[trigger] c[y][x] == g[y][x] by {
            assert(g[y][x] != 0);
        }
        lemma_same_cells(c, g);
    }
    assert(completions(g) =~= set![g]);
}

/// A completion writes into each blank cell a digit that is placeable
/// there, and it completes the grid with that digit written in.
pub proof fn lemma_completion_fixes_cell(g: Grid, c: Grid, x: int, y: int)
    requires
        is_grid(g),
        on_board(x, y),
        g[y][x] == 0,
        completes(c, g),
    ensures
        1 <= c[y][x] <= 9,
        placeable(g, c[y][x], x, y),
        completes(c, with_cell(g, x, y, c[y][x])),
{
    let d = c[y][x];
    assert(d != 0 && d <= 9);
    assert forall|i: int, j: int| peers(x, y, i, j) implies #[trigger] g[j][i] != d by {
        assert(c[y][x] != c[j][i]);
        if g[j][i] != 0 {
            assert(c[j][i] == g[j][i]);
        }
    }
    lemma_placeable_peers(g, d, x, y);
    let h = with_cell(g, x, y, d);
    lemma_with_cell(g, x, y, d);
    assert forall|i: int, j: int| on_board(i, j) && #[trigger] h[j][i] != 0 implies c[j][i]
        == h[j][i] by {
        if i != x || j != y {
            assert(h[j][i] == g[j][i]);
        }
    }
    assert forall|x1: int, y1: int, x2: int, y2: int|
        peers(x1, y1, x2, y2) && h[y1][x1] == 0 implies #[trigger] c[y1][x1] != #[trigger] c[y2][x2] by {
        assert(g[y1][x1] == 0);
    }
}

/// Where a digit is placeable at a blank cell, what completes the grid with
/// that digit written in completes the grid itself.
pub proof fn lemma_completion_through_cell(g: Grid, c: Grid, x: int, y: int, d: u8)
    requires
        is_grid(g),
        on_board(x, y),
        g[y][x] == 0,
        1 <= d <= 9,
        placeable(g, d, x, y),
        completes(c, with_cell(g, x, y, d)),
    ensures
        completes(c, g),
        c[y][x] == d,
{
    let h = with_cell(g, x, y, d);
    lemma_with_cell(g, x, y, d);
    lemma_placeable_peers(g, d, x, y);
    assert(h[y][x] == d);
    assert(c[y][x] == d);
    assert forall|i: int, j: int| on_board(i, j) && #[trigger] g[j][i] != 0 implies c[j][i]
        == g[j][i] by {
        assert(i != x || j != y);
        assert(h[j][i] == g[j][i]);
    }
    assert forall|x1: int, y1: int, x2: int, y2: int|
        peers(x1, y1, x2, y2) && g[y1][x1] == 0 implies #[trigger] c[y1][x1] != #[trigger] c[y2][x2] by {
        if x1 == x && y1 == y {
            if h[y2][x2] == 0 {
                assert(peers(x2, y2, x1, y1));
                assert(c[y2][x2] != c[y1][x1]);
            } else {
                assert(h[y2][x2] == g[y2][x2]);
                assert(g[y2][x2] != d);
                assert(c[y2][x2] == h[y2][x2]);
            }
        } else {
            assert(h[y1][x1] == g[y1][x1]);
        }
    }
}

/// The first completion of a grid, found through its first blank cell: it
/// is the first completion of the grid with the smallest digit written into
/// that cell with which the grid can be completed at all.
pub proof fn lemma_first_through_cell(g: Grid, c: Grid, x: int, y: int, d: u8)
    requires
        is_grid(g),
        on_board(x, y),
        g[y][x] == 0,
        forall|i: int, j: int| on_board(i, j) && comes_before(i, j, x, y) ==> #[trigger] g[j][i] != 0,
        1 <= d <= 9,
        placeable(g, d, x, y),
        is_first_completion(c, with_cell(g, x, y, d)),
        forall|o: Grid| #[trigger] completes(o, g) ==> o[y][x] >= d,
    ensures
        is_first_completion(c, g),
{
    lemma_completion_through_cell(g, c, x, y, d);
    assert forall|o: Grid| #[trigger] completes(o, g) implies o == c || precedes(c, o) by {
        lemma_completion_fixes_cell(g, o, x, y);
        if o[y][x] == d {
            assert(completes(o, with_cell(g, x, y, d)));
        } else {
            assert forall|i: int, j: int| on_board(i, j) && comes_before(i, j, x, y) implies c[j][i]
                == o[j][i] by {
                assert(g[j][i] != 0);
                assert(c[j][i] == g[j][i]);
                assert(o[j][i] == g[j][i]);
            }
            assert(agree_before(c, o, x, y));
            assert(c[y][x] < o[y][x]);
        }
    }
}

/// No two grids precede each other: a grid has at most one first
/// completion.
pub proof fn lemma_first_completion_unique(g: Grid, a: Grid, b: Grid)
    requires
        is_first_completion(a, g),
        is_first_completion(b, g),
    ensures
        a == b,
{
    if a != b {
        assert(completes(b, g));
        assert(completes(a, g));
        assert(precedes(a, b));
        assert(precedes(b, a));
        let (x1, y1) = choose|x: int, y: int|
            on_board(x, y) && #[trigger] a[y][x] < b[y][x] && agree_before(a, b, x, y);
        let (x2, y2) = choose|x: int, y: int|
            on_board(x, y) && #[trigger] b[y][x] < a[y][x] && agree_before(b, a, x, y);
        if comes_before(x1, y1, x2, y2) {
            assert(b[y1][x1] == a[y1][x1]);
        } else if comes_before(x2, y2, x1, y1) {
            assert(a[y2][x2] == b[y2][x2]);
        } else {
            assert(x1 == x2 && y1 == y2);
        }
    }
}

/// A grid that is a first completion of `g` is the first completion of `g`.
pub proof fn lemma_first_completion_is(g: Grid, c: Grid)
    requires
        is_first_completion(c, g),
    ensures
        has_completion(g),
        first_completion(g) == c,
        settled(g) == c,
{
    assert(completes(c, g));
    lemma_first_completion_unique(g, first_completion(g), c);
}

/// The place, counted row by row, of the first blank cell from place `k`
/// on; 81 where no blank follows.
pub open spec fn first_blank_from(g: Grid, k: nat) -> nat
    decreases 81 - k,
{
    if k >= 81 {
        81
    } else if g[k as int / 9][k as int % 9] == 0 {
        k
    } else {
        first_blank_from(g, k + 1)
    }
}

/// `first_blank_from` finds a blank cell before which, from place `k` on,
/// no cell is blank.
proof fn lemma_first_blank_from(g: Grid, k: nat)
    requires
        k <= 81,
    ensures
        k <= first_blank_from(g, k) <= 81,
        first_blank_from(g, k) < 81 ==> g[first_blank_from(g, k) as int / 9][first_blank_from(
            g,
            k,
        ) as int % 9] == 0,
        forall|i: int, j: int|
            on_board(i, j) && k <= 9 * j + i < first_blank_from(g, k) ==> #[trigger] g[j][i] != 0,
    decreases 81 - k,
{
    if k < 81 && g[k as int / 9][k as int % 9] != 0 {
        lemma_first_blank_from(g, k + 1);
        assert forall|i: int, j: int|
            on_board(i, j) && k <= 9 * j + i < first_blank_from(g, k) implies #[trigger] g[j][i]
            != 0 by {
            if 9 * j + i == k {
                assert(k as int / 9 == j && k as int % 9 == i);
            }
        }
    }
}

/// A grid that can be completed has a completion that precedes all its
/// others.
pub proof fn lemma_first_completion_exists(g: Grid)
    requires
        is_grid(g),
        has_completion(g),
    ensures
        is_first_completion(first_completion(g), g),
        completes(settled(g), g),
    decreases blanks(g), 11int,
{
    lemma_first_blank_from(g, 0);
    let r = first_blank_from(g, 0) as int;
    if r == 81 {
        assert(is_full(g));
        lemma_full_grid(g);
    } else {
        let x = r % 9;
        let y = r / 9;
        assert forall|i: int, j: int|
            on_board(i, j) && comes_before(i, j, x, y) implies #[trigger] g[j][i] != 0 by {
            assert(0 <= 9 * j + i < r);
        }
        assert forall|o: Grid| #[trigger] completes(o, g) implies o[y][x] >= 1 by {
            assert(o[y][x] != 0);
        }
        lemma_first_from_digit(g, x, y, 1);
    }
}

/// Where every completion of `g` holds at least `n` in its first blank cell,
/// `g` has a first completion.
proof fn lemma_first_from_digit(g: Grid, x: int, y: int, n: u8)
    requires
        is_grid(g),
        has_completion(g),
        on_board(x, y),
        g[y][x] == 0,
        forall|i: int, j: int| on_board(i, j) && comes_before(i, j, x, y) ==> #[trigger] g[j][i] != 0,
        1 <= n <= 10,
        forall|o: Grid| #[trigger] completes(o, g) ==> o[y][x] >= n,
    ensures
        is_first_completion(first_completion(g), g),
    decreases blanks(g), 10 - n,
{
    if n == 10 {
        let o = choose|o: Grid| completes(o, g);
        assert(o[y][x] <= 9);
    } else {
        let h = with_cell(g, x, y, n);
        if placeable(g, n, x, y) && has_completion(h) {
            lemma_with_cell(g, x, y, n);
            lemma_blanks_filled(g, x, y, n);
            lemma_first_completion_exists(h);
            lemma_first_through_cell(g, first_completion(h), x, y, n);
        } else {
            assert forall|o: Grid| #[trigger] completes(o, g) implies o[y][x] >= n + 1 by {
                lemma_completion_fixes_cell(g, o, x, y);
            }
            lemma_first_from_digit(g, x, y, (n + 1) as u8);
        }
    }
}

/// The completions of a consistent grid are the solutions that extend it.
pub proof fn lemma_completions_of_consistent(g: Grid, c: Grid)
    requires
        is_grid(g),
        consistent(g),
    ensures
        completes(c, g) <==> is_solution(c) && extends(c, g),
{
    if completes(c, g) {
        assert forall|x1: int, y1: int, x2: int, y2: int|
            peers(x1, y1, x2, y2) && #[trigger] c[y1][x1] != 0 implies c[y1][x1] != #[trigger] c[y2][x2] by {
            if g[y1][x1] == 0 {
            } else if g[y2][x2] == 0 {
                assert(peers(x2, y2, x1, y1));
                assert(c[y2][x2] != c[y1][x1]);
            } else {
                assert(g[y1][x1] != g[y2][x2]);
                assert(c[y1][x1] == g[y1][x1]);
                assert(c[y2][x2] == g[y2][x2]);
            }
        }
    }
    if is_solution(c) && extends(c, g) {
        assert forall|x1: int, y1: int, x2: int, y2: int|
            peers(x1, y1, x2, y2) && g[y1][x1] == 0 implies #[trigger] c[y1][x1] != #[trigger] c[y2][x2] by {
            assert(c[y1][x1] != 0);
        }
    }
}

/// The completions of `g` that hold less than `n` in cell `(x, y)`.
pub open spec fn completions_under(g: Grid, x: int, y: int, n: int) -> Set<Grid> {
    Set::new(|c: Grid| completes(c, g) && c[y][x] < n)
}

/// No completion holds less than 1 in a cell, and none holds 10 or more.
pub proof fn lemma_completions_under_ends(g: Grid, x: int, y: int)
    requires
        on_board(x, y),
    ensures
        completions_under(g, x, y, 1) == Set::<Grid>::empty(),
        completions_under(g, x, y, 10) == completions(g),
{
    assert forall|c: Grid| completes(c, g) implies 1 <= c[y][x] <= 9 by {
        assert(c[y][x] != 0);
    }
    assert(completions_under(g, x, y, 1) =~= Set::<Grid>::empty());
    assert(completions_under(g, x, y, 10) =~= completions(g));
}

/// The completions that hold at most `d` in a blank cell are those that
/// hold less, and with them, where `d` is placeable there, the completions
/// of the grid with `d` written in: so their numbers add up.
pub proof fn lemma_completions_under_next(g: Grid, x: int, y: int, d: u8)
    requires
        is_grid(g),
        on_board(x, y),
        g[y][x] == 0,
        1 <= d <= 9,
        completions_under(g, x, y, d as int).finite(),
        placeable(g, d, x, y) ==> completions(with_cell(g, x, y, d)).finite(),
    ensures
        completions_under(g, x, y, d + 1).finite(),
        completions_under(g, x, y, d + 1).len() == completions_under(g, x, y, d as int).len() + (
        if placeable(g, d, x, y) {
            completions(with_cell(g, x, y, d)).len()
        } else {
            0
        }),
{
    let below = completions_under(g, x, y, d as int);
    let upto = completions_under(g, x, y, d + 1);
    if placeable(g, d, x, y) {
        let here = completions(with_cell(g, x, y, d));
        assert forall|c: Grid| upto.contains(c) <==> below.contains(c) || here.contains(c) by {
            if completes(c, with_cell(g, x, y, d)) {
                lemma_completion_through_cell(g, c, x, y, d);
            }
            if completes(c, g) && c[y][x] == d {
                lemma_completion_fixes_cell(g, c, x, y);
            }
        }
        assert(upto =~= below + here);
        assert forall|c: Grid| !(below.contains(c) && here.contains(c)) by {
            if completes(c, with_cell(g, x, y, d)) {
                lemma_completion_through_cell(g, c, x, y, d);
            }
        }
        assert(below.disjoint(here));
        lemma_set_disjoint_lens(below, here);
    } else {
        assert forall|c: Grid| upto.contains(c) implies below.contains(c) by {
            lemma_completion_fixes_cell(g, c, x, y);
        }
        assert(upto =~= below);
    }
}

/// What writing into a cell does to the blanks among the first `k` cells:
/// where the cell is among them, one blank goes if it was blank, and one
/// comes if it is blank now.
proof fn lemma_blanks_among(g: Grid, x: int, y: int, d: u8, k: nat)
    requires
        is_grid(g),
        on_board(x, y),
        d <= 9,
        k <= 81,
    ensures
        blanks_among(with_cell(g, x, y, d), k) + (if 9 * y + x < k && g[y][x] == 0 {
            1nat
        } else {
            0nat
        }) == blanks_among(g, k) + (if 9 * y + x < k && d == 0 {
            1nat
        } else {
            0nat
        }),
    decreases k,
{
    if k > 0 {
        lemma_blanks_among(g, x, y, d, (k - 1) as nat);
        lemma_with_cell(g, x, y, d);
        let p = (k - 1) as int;
        let h = with_cell(g, x, y, d);
        assert(on_board(p % 9, p / 9));
        if p % 9 != x || p / 9 != y {
            assert(h[p / 9][p % 9] == g[p / 9][p % 9]);
        } else {
            assert(p == 9 * y + x);
        }
    }
}

/// Writing into a cell takes one blank away where the cell was blank, and
/// adds one where it is blank afterwards.
pub proof fn lemma_blanks_with_cell(g: Grid, x: int, y: int, d: u8)
    requires
        is_grid(g),
        on_board(x, y),
        d <= 9,
    ensures
        blanks(with_cell(g, x, y, d)) + (if g[y][x] == 0 {
            1nat
        } else {
            0nat
        }) == blanks(g) + (if d == 0 {
            1nat
        } else {
            0nat
        }),
{
    lemma_blanks_among(g, x, y, d, 81);
}

/// Filling a blank cell leaves one blank fewer.
pub proof fn lemma_blanks_filled(g: Grid, x: int, y: int, d: u8)
    requires
        is_grid(g),
        on_board(x, y),
        g[y][x] == 0,
        1 <= d <= 9,
    ensures
        blanks(with_cell(g, x, y, d)) + 1 == blanks(g),
{
    lemma_blanks_with_cell(g, x, y, d);
}

} // verus!
