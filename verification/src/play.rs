//! A game on the board: which cell is selected, what each event of the
//! player does to board and selection, and how a cell is to be shown.

use crate::engine::{Puzzle, Sudoku, get};
use crate::generate::is_made;
use crate::grid::{on_board, settled};
use vstd::prelude::*;

verus! {

/// How a cell of the board is to be shown.
#[derive(Clone, Copy, Debug, PartialEq, Eq, Structural)]
pub enum Mark {
    /// Nothing stands in the cell.
    Blank,
    /// The cell holds a clue.
    Clue,
    /// The cell holds an entry of the player.
    Entry,
    /// The cell holds an entry that differs from the solution, and the
    /// player has asked to be told.
    Mistake,
}

/// What the player can do.
#[derive(Clone, Copy, Debug, PartialEq, Eq, Structural)]
pub enum Event {
    /// The cell in column `x` of row `y` was picked.
    Pick { x: u8, y: u8 },
    /// A character was typed.
    Typed(char),
    /// One cell to the left.
    Left,
    /// One cell to the right.
    Right,
    /// One cell up.
    Up,
    /// One cell down.
    Down,
    /// A new puzzle is asked for.
    NewPuzzle,
    /// The board is to be completed.
    Solve,
    /// The board is to be the clues again.
    Reset,
    /// Wrong entries are, or are no longer, to be pointed out.
    Assist(bool),
}

/// The digit that a typed character stands for.
pub open spec fn digit_of(c: char) -> Option<u8> {
    if '0' <= c <= '9' {
        Some((c as u32 - '0' as u32) as u8)
    } else {
        None
    }
}

/// The digit that a typed character stands for: `'0'` to `'9'` are the
/// digits 0 to 9, and no other character is a digit.
pub fn digit_of_key(c: char) -> (digit: Option<u8>)
    ensures
        digit == digit_of(c),
{
    match c {
        '0' => Some(0),
        '1' => Some(1),
        '2' => Some(2),
        '3' => Some(3),
        '4' => Some(4),
        '5' => Some(5),
        '6' => Some(6),
        '7' => Some(7),
        '8' => Some(8),
        '9' => Some(9),
        _ => None,
    }
}

impl Puzzle {
    /// How cell `(x, y)` is to be shown.
    pub open spec fn mark_at(self, x: int, y: int) -> Mark {
        if self.current[y][x] == 0 {
            Mark::Blank
        } else if self.given[y][x] != 0 {
            Mark::Clue
        } else if self.assist && self.solved[y][x] != self.current[y][x] {
            Mark::Mistake
        } else {
            Mark::Entry
        }
    }

    /// The puzzle with the assist flag set to `on`.
    pub open spec fn with_assist(self, on: bool) -> Puzzle {
        Puzzle { current: self.current, given: self.given, solved: self.solved, assist: on }
    }
}

impl Sudoku {
    /// How cell `(x, y)` is to be shown: blank, as a clue, as an entry, or,
    /// with the assist flag set, as an entry that differs from the solution.
    pub fn mark(&self, x: u8, y: u8) -> (mark: Mark)
        requires
            self.wf(),
            x < 9,
            y < 9,
        ensures
            mark == self@.mark_at(x as int, y as int),
    {
        let cell = get(&self.board, x, y);
        if cell == 0 {
            Mark::Blank
        } else if get(&self.initial_board, x, y) != 0 {
            Mark::Clue
        } else if self.help_player && get(&self.solved_board, x, y) != cell {
            Mark::Mistake
        } else {
            Mark::Entry
        }
    }
}

/// The selected cell after `event`: a pick of a cell of the board selects
/// it, an arrow moves the selection by one cell and stops at the edge, and
/// nothing else moves it.
pub open spec fn selection_after(selected: (u8, u8), event: Event) -> (u8, u8) {
    match event {
        Event::Pick { x, y } => if x < 9 && y < 9 {
            (x, y)
        } else {
            selected
        },
        Event::Left => if selected.0 > 0 {
            ((selected.0 - 1) as u8, selected.1)
        } else {
            selected
        },
        Event::Right => if selected.0 < 8 {
            ((selected.0 + 1) as u8, selected.1)
        } else {
            selected
        },
        Event::Up => if selected.1 > 0 {
            (selected.0, (selected.1 - 1) as u8)
        } else {
            selected
        },
        Event::Down => if selected.1 < 8 {
            (selected.0, (selected.1 + 1) as u8)
        } else {
            selected
        },
        _ => selected,
    }
}

/// The puzzle after `event`, for every event but the asking for a new
/// puzzle: a typed digit is entered at the selected cell, the board is
/// searched, or the clues are put back, or the assist flag is set.
pub open spec fn puzzle_after(p: Puzzle, selected: (u8, u8), event: Event) -> Puzzle {
    match event {
        Event::Typed(c) => match digit_of(c) {
            Some(d) => p.with_entry(d, selected.0 as int, selected.1 as int),
            None => p,
        },
        Event::Solve => p.with_current(settled(p.current)),
        Event::Reset => p.restarted(),
        Event::Assist(on) => p.with_assist(on),
        _ => p,
    }
}

/// A board with the cell that the player has selected, as `(x, y)`.
pub struct Game {
    /// The board.
    pub sudoku: Sudoku,
    /// The selected cell: its column, then its row.
    pub selected: (u8, u8),
}

impl Game {
    /// The board is well formed and the selected cell is one of its cells.
    pub open spec fn wf(&self) -> bool {
        self.sudoku.wf() && on_board(self.selected.0 as int, self.selected.1 as int)
    }

    /// A game on a new puzzle, with the first cell selected.
    pub fn new() -> (game: Game)
        ensures
            game.wf(),
            game.selected == (0u8, 0u8),
            is_made(game.sudoku@),
            game.sudoku@.fresh(),
            !game.sudoku@.assist,
    {
        Game { sudoku: Sudoku::create_board(), selected: (0, 0) }
    }

    /// Does what `event` asks for, and returns whether the clock is to start
    /// anew, which it does when the board is reset.
    ///
    /// A new puzzle is made as `create_board` makes it and keeps the assist
    /// flag; every other event changes board and selection as
    /// `puzzle_after` and `selection_after` say.
    pub fn handle(&mut self, event: Event) -> (restart_clock: bool)
        requires
            old(self).wf(),
        ensures
            final(self).wf(),
            restart_clock == (event == Event::Reset),
            final(self).selected == selection_after(old(self).selected, event),
            event != Event::NewPuzzle ==> final(self).sudoku@ == puzzle_after(
                old(self).sudoku@,
                old(self).selected,
                event,
            ),
            event == Event::NewPuzzle ==> {
                &&& is_made(final(self).sudoku@.with_assist(false))
                &&& final(self).sudoku@.fresh()
                &&& final(self).sudoku@.assist == old(self).sudoku@.assist
            },
    {
        match event {
            Event::Pick { x, y } => {
                if x < 9 && y < 9 {
                    self.selected = (x, y);
                }
                false
            },
            Event::Typed(c) => {
                match digit_of_key(c) {
                    Some(d) => {
                        self.sudoku.set_cell(d, self.selected.0, self.selected.1);
                    },
                    None => {},
                }
                false
            },
            Event::Left => {
                if self.selected.0 > 0 {
                    self.selected.0 -= 1;
                }
                false
            },
            Event::Right => {
                if self.selected.0 < 8 {
                    self.selected.0 += 1;
                }
                false
            },
            Event::Up => {
                if self.selected.1 > 0 {
                    self.selected.1 -= 1;
                }
                false
            },
            Event::Down => {
                if self.selected.1 < 8 {
                    self.selected.1 += 1;
                }
                false
            },
            Event::NewPuzzle => {
                let assist = self.sudoku.help_player;
                self.sudoku = Sudoku::create_board();
                let ghost made = self.sudoku@;
                self.sudoku.help_player = assist;
                assert(self.sudoku@.with_assist(false) == made);
                false
            },
            Event::Solve => {
                self.sudoku.solve();
                false
            },
            Event::Reset => {
                self.sudoku.reset();
                true
            },
            Event::Assist(on) => {
                self.sudoku.help_player = on;
                false
            },
        }
    }
}

} // verus!
