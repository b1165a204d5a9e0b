//! A single cell, its colour, and the rule tables that drive it.

use vstd::prelude::*;
use crate::TIME_TO_RED;

verus! {

/// One cell of the board.
#[derive(Clone, Copy, Debug, PartialEq, Eq, Structural)]
pub struct Cell {
    /// Consecutive generations this cell has been alive, capped at [`TIME_TO_RED`].
    pub frames_alive: u16,
    /// Whether the cell is alive.
    pub state: bool,
    /// Whether the cell has to be recomputed in the next generation.
    pub should_update: bool,
}

/// What a cell looks like, independent of any palette.
#[derive(Clone, Copy, Debug, PartialEq, Eq, Structural)]
pub enum CellColor {
    /// The cell is dead and takes the background colour.
    Background,
    /// The cell is alive: the young colour blended towards red by
    /// `elapsed / time_to_red`, a ratio between 0 and 1.
    Blend { elapsed: u16, time_to_red: u16 },
}

impl Cell {
    /// A dead cell carries no age.
    pub open spec fn wf(self) -> bool {
        !self.state ==> self.frames_alive == 0
    }

    /// The cell after its state has been set to `state`.
    pub open spec fn with_state(self, state: bool) -> Cell {
        Cell {
            frames_alive: if state { self.frames_alive } else { 0 },
            state,
            should_update: true,
        }
    }

    /// The cell with its wake flag set to `flag`.
    pub open spec fn with_flag(self, flag: bool) -> Cell {
        Cell { should_update: flag, ..self }
    }

    /// The cell one generation older: a live cell below the cap gains a frame.
    pub open spec fn aged(self) -> Cell {
        if self.state && self.frames_alive < TIME_TO_RED {
            Cell { frames_alive: (self.frames_alive + 1) as u16, ..self }
        } else {
            self
        }
    }

    /// The colour of the cell as a blend ratio.
    pub open spec fn color(self) -> CellColor {
        if self.state {
            CellColor::Blend {
                elapsed: if self.frames_alive < TIME_TO_RED {
                    self.frames_alive
                } else {
                    TIME_TO_RED
                },
                time_to_red: TIME_TO_RED,
            }
        } else {
            CellColor::Background
        }
    }

    /// A fresh cell: no age, awake.
    pub fn new(state: bool) -> (cell: Cell)
        ensures
            cell == (Cell { frames_alive: 0, state, should_update: true }),
    {
        Cell { frames_alive: 0, should_update: true, state }
    }

    /// Sets the state and wakes the cell, whether or not the state changed.
    /// Dying resets the age.
    pub fn set_state(&mut self, state: bool)
        ensures
            *final(self) == old(self).with_state(state),
    {
        if !state {
            self.frames_alive = 0;
        }
        self.should_update = true;
        self.state = state;
    }

    /// Ages the cell by one generation, up to the cap.
    pub fn age(&mut self)
        ensures
            *final(self) == old(self).aged(),
    {
        if self.state && self.frames_alive < TIME_TO_RED {
            self.frames_alive += 1;
        }
    }

    /// The colour to draw the cell in: background when dead, otherwise the
    /// blend ratio `min(frames_alive, TIME_TO_RED) / TIME_TO_RED`.
    pub fn get_color(&self) -> (color: CellColor)
        ensures
            color == self.color(),
    {
        if self.state {
            let elapsed: u16 = if self.frames_alive < TIME_TO_RED {
                self.frames_alive
            } else {
                TIME_TO_RED
            };
            CellColor::Blend { elapsed, time_to_red: TIME_TO_RED }
        } else {
            CellColor::Background
        }
    }
}

impl Default for Cell {
    fn default() -> (cell: Cell)
        ensures
            cell == (Cell { frames_alive: 0, state: false, should_update: true }),
    {
        Cell::new(false)
    }
}

/// A rule table: the next state of a cell from its state and the number of
/// its live neighbours.
pub trait Rule {
    /// The table itself.
    spec fn table(&self, alive: bool, neighbors: int) -> bool;

    /// Looks the next state up in the table.
    fn next_state(&self, alive: bool, neighbors: u8) -> (next: bool)
        ensures
            next == self.table(alive, neighbors as int),
    ;
}

/// Classic Life: a live cell survives on two or three live neighbours, a dead
/// cell is born on exactly three.
pub open spec fn conway_table(alive: bool, neighbors: int) -> bool {
    neighbors == 3 || (alive && neighbors == 2)
}

/// A variant in which four live neighbours also keep a live cell alive.
pub open spec fn test_table(alive: bool, neighbors: int) -> bool {
    neighbors == 3 || (alive && (neighbors == 2 || neighbors == 4))
}

pub fn check_cell_conway(state: bool, neighbors: u8) -> (next: bool)
    ensures
        next == conway_table(state, neighbors as int),
{
    if state {
        match neighbors {
            2 => true,
            3 => true,
            _ => false,
        }
    } else {
        match neighbors {
            3 => true,
            _ => false,
        }
    }
}

pub fn check_cell_test(state: bool, neighbors: u8) -> (next: bool)
    ensures
        next == test_table(state, neighbors as int),
{
    if state {
        match neighbors {
            2 => true,
            3 => true,
            4 => true,
            _ => false,
        }
    } else {
        match neighbors {
            3 => true,
            _ => false,
        }
    }
}

/// The classic rule as a strategy value.
#[derive(Clone, Copy, Debug)]
pub struct Conway;

/// The four-neighbour variant as a strategy value.
#[derive(Clone, Copy, Debug)]
pub struct FourSurvives;

impl Rule for Conway {
    open spec fn table(&self, alive: bool, neighbors: int) -> bool {
        conway_table(alive, neighbors)
    }

    fn next_state(&self, alive: bool, neighbors: u8) -> (next: bool) {
        check_cell_conway(alive, neighbors)
    }
}

impl Rule for FourSurvives {
    open spec fn table(&self, alive: bool, neighbors: int) -> bool {
        test_table(alive, neighbors)
    }

    fn next_state(&self, alive: bool, neighbors: u8) -> (next: bool) {
        check_cell_test(alive, neighbors)
    }
}

} // verus!
