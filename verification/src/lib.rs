//! Board and ship-placement engine for a grid-based battleship game.
//!
//! Every player owns a rectangular grid on which axis-aligned ships occupy
//! contiguous cells. A ship's identifier is its length.
//!
//! - [`enums`]: directions, errors, the steps of a creation session.
//! - [`board`]: ships, player boards and the game, with the checks that
//!   keep ships on the grid, apart from each other and unique by identifier.
//! - [`grid`]: flattening a player's ships into a grid of cells.
//! - [`rebuild`]: reading the ships back from such a grid.
//! - [`file`]: the lines of a save file.
//! - [`handler`]: the commands that build a game, among them the random layout.
//! - [`datacheck`]: checking a query for a cell.
//! - [`utils`]: text, numbers, column letters, the random pick.
//! - [`laws`]: what holds of the engine as a whole.
//!
//! Nothing here reads or writes a file or the terminal: the caller hands
//! over lines and arguments and takes back lines and notices.

pub mod enums;
pub mod board;
pub mod grid;
pub mod rebuild;
pub mod file;
pub mod handler;
pub mod datacheck;
pub mod utils;
pub mod laws;
