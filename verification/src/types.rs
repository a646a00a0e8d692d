//! The plain value types of the engine: coordinates, cell content and
//! state, configuration, outcomes and errors.

use vstd::prelude::*;

verus! {

/// A cell position: `x` is the column, `y` the row, with the origin in
/// the top-left corner of the board.
#[derive(Clone, Copy, Debug, PartialEq, Eq, Structural)]
pub struct Coordinate {
    pub x: u16,
    pub y: u16,
}

impl Coordinate {
    pub fn new(x: u16, y: u16) -> (c: Coordinate)
        ensures
            c == (Coordinate { x, y }),
    {
        Coordinate { x, y }
    }
}

/// Generation-time content of a cell: a mine, or the number of
/// mine-bearing neighbors under 8-connectivity (0 through 8).
#[derive(Clone, Copy, Debug, PartialEq, Eq, Structural)]
pub enum CellContent {
    Mine,
    SafeCount(u8),
}

/// Player-visible operational state of a cell.
#[derive(Clone, Copy, Debug, PartialEq, Eq, Structural)]
pub enum CellState {
    Hidden,
    Revealed,
    Flagged,
}

/// Terminal outcome reported after an operation: nothing decided yet,
/// a detonated mine at the given coordinate, or a completed board.
#[derive(Clone, Copy, Debug, PartialEq, Eq, Structural)]
pub enum GameOutcome {
    Ongoing,
    Loss(Coordinate),
    Win,
}

/// An intent the engine refuses: a configuration whose mine count does
/// not fit its grid, or a coordinate outside the current grid.
#[derive(Clone, Copy, Debug, PartialEq, Eq, Structural)]
pub enum BoardError {
    InvalidConfig,
    OutOfBounds,
}

/// Whether a game still accepts reveal and flag intents.
#[derive(Clone, Copy, Debug, PartialEq, Eq, Hash, Structural, Default)]
pub enum GameState {
    #[default]
    InGame,
    Over,
}

impl GameOutcome {
    /// The game state after this outcome is reported: a loss or a win
    /// ends the game, anything else leaves it running.
    pub fn next_state(&self, current: GameState) -> (s: GameState)
        ensures
            s == (if *self is Ongoing {
                current
            } else {
                GameState::Over
            }),
    {
        match self {
            GameOutcome::Ongoing => current,
            GameOutcome::Loss(_) => GameState::Over,
            GameOutcome::Win => GameState::Over,
        }
    }
}

/// Board configuration: grid dimensions and how many mines to place.
#[derive(Clone, Copy, Debug, PartialEq, Eq, Structural)]
pub struct BoardOptions {
    pub width: u16,
    pub height: u16,
    pub bomb_count: u16,
}

impl BoardOptions {
    /// A configuration is valid when both dimensions are positive and
    /// the mine count does not exceed the number of cells.
    pub open spec fn valid(self) -> bool {
        &&& self.width > 0
        &&& self.height > 0
        &&& self.bomb_count as int <= self.width as int * self.height as int
    }

    /// The number of cells of the configured grid.
    pub open spec fn spec_area(self) -> int {
        self.width as int * self.height as int
    }

    pub fn is_valid(&self) -> (r: bool)
        ensures
            r == self.valid(),
    {
        proof {
            assert((self.width as int) * (self.height as int) <= 65535int * 65535int)
                by (nonlinear_arith)
                requires
                    self.width <= 65535,
                    self.height <= 65535,
            ;
        }
        self.width > 0 && self.height > 0
            && (self.bomb_count as u64) <= (self.width as u64) * (self.height as u64)
    }
}

impl Default for BoardOptions {
    /// The classic beginner board: 9 by 9 with 10 mines.
    fn default() -> (d: Self)
        ensures
            d == (BoardOptions { width: 9u16, height: 9u16, bomb_count: 10u16 }),
    {
        BoardOptions { width: 9, height: 9, bomb_count: 10 }
    }
}

/// What an operation did: the cells whose operational state changed,
/// and the outcome the operation ended with.
#[derive(Debug, PartialEq, Eq)]
pub struct RevealReport {
    pub changed: Vec<Coordinate>,
    pub outcome: GameOutcome,
}

} // verus!
