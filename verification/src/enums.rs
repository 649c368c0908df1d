//! Shared enumerations and limits.

use vstd::prelude::*;

verus! {

/// Largest value accepted for a grid dimension, a ship size or a player count.
pub const MAX_SIZE: usize = 32767;

/// Why a number given as text was refused.
#[derive(Clone, Copy, Debug, PartialEq, Eq, Structural)]
pub enum RowColErr {
    /// The text is not an unsigned decimal number that fits the machine word.
    Failed,
    /// The number is zero.
    TooSmall,
    /// The number is larger than [`MAX_SIZE`].
    TooBig,
}

/// Why a coordinate in column-letter, row-number notation was refused.
#[derive(Clone, Copy, Debug, PartialEq, Eq, Structural)]
pub enum QueryError {
    /// The coordinate has no letter or no digit.
    InvalidFormat,
    /// The row is no number that fits the machine word.
    InvalidRow,
    /// The column is beyond the machine word.
    InvalidColumn,
    /// The cell lies off the grid.
    OutOfBounds,
}

/// Steps of a board-creation session that have been taken so far.
#[derive(Clone, Copy, Debug, PartialEq, Eq, Structural)]
pub enum StateCreate {
    StateRows,
    StateCols,
    StateShips,
    StatePlayer,
    StateRandom,
    StatePlaceShip,
    StateFileName,
    StateCreate,
}

/// The axis along which a ship extends from its origin.
#[derive(Clone, Copy, Debug, PartialEq, Eq, Structural)]
pub enum Direction {
    /// The ship extends towards higher columns.
    Horizontal,
    /// The ship extends towards higher rows.
    Vertical,
}

/// Why a ship cannot be placed.
#[derive(Clone, Copy, Debug, PartialEq, Eq, Structural)]
pub enum PlacementError {
    /// The ship has no cell, or its first or last cell lies off the grid.
    OutOfBounds,
    /// The ship lies neither in one row nor in one column. No ship that is
    /// made from a first cell, a length and a direction does; the check is
    /// there as a safeguard.
    Diagonal,
    /// The player has a ship with this identifier.
    DuplicateId,
    /// The ship would occupy a cell of another ship of the player.
    Overlap,
}

/// Why the part of a save file that holds the players was refused.
#[derive(Clone, Copy, Debug, PartialEq, Eq, Structural)]
pub enum LoadError {
    /// A player's name is empty or holds a comma.
    BadPlayerName,
    /// A row of a player's grid holds more cells than the grid has columns.
    /// `row` counts from one, `player` from zero.
    TooManyColumns { row: usize, player: usize },
    /// The lines end before a player's grid has all its rows. `player` counts from one.
    NotEnoughRows { player: usize },
    /// The cells that hold `ship_id` are not one straight segment of `ship_id` cells.
    ShipMalformed { ship_id: usize },
    /// The ship that the cells with `ship_id` show cannot be placed on the player's board.
    ShipRejected { ship_id: usize },
}

/// Outcome of a single shot.
#[derive(Clone, Copy, Debug, PartialEq, Eq, Structural)]
pub enum HitMiss {
    Hit,
    Miss,
}

} // verus!
