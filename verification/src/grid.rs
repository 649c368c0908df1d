//! The cell grid of a player: what a save file holds for each player.
//!
//! A grid is a list of rows, each a list of cells. A cell holds zero for
//! water, or the identifier of the ship that occupies it. A cell that a row
//! is too short to hold, or that lies below the last row, counts as water.

use vstd::prelude::*;
use crate::board::{GameData, PlayBoard, ShipBoundingBox, ships_valid};

verus! {

/// The rows of a grid as sequences of cells.
pub open spec fn grid_view(grid: &Vec<Vec<usize>>) -> Seq<Seq<usize>> {
    Seq::new(grid@.len(), |row: int| grid@[row]@)
}

/// What the grid holds at the cell `(col, row)`: zero wherever it has no cell.
pub open spec fn value_at(grid: Seq<Seq<usize>>, col: int, row: int) -> usize {
    if 0 <= row < grid.len() && 0 <= col < grid[row].len() {
        grid[row][col]
    } else {
        0
    }
}

/// The grid has `rows` rows of `cols` cells each.
pub open spec fn is_rectangle(grid: Seq<Seq<usize>>, cols: int, rows: int) -> bool {
    &&& grid.len() == rows
    &&& forall|row: int| 0 <= row < rows ==> (#[trigger] grid[row]).len() == cols
}

/// What a cell holds once `ships` have been painted one after the other:
/// the identifier of the last of them that occupies the cell, zero if none does.
pub open spec fn painted(ships: Seq<ShipBoundingBox>, col: int, row: int) -> usize
    decreases ships.len(),
{
    if ships.len() == 0 {
        0
    } else if ships.last().covers(col, row) {
        ships.last().ship_id()
    } else {
        painted(ships.drop_last(), col, row)
    }
}

/// The grid has `rows` rows of `cols` cells and shows `ships`: each cell
/// holds what [`painted`] gives for it.
pub open spec fn is_painting(grid: Seq<Seq<usize>>, ships: Seq<ShipBoundingBox>, cols: int, rows: int) -> bool {
    &&& is_rectangle(grid, cols, rows)
    &&& forall|col: int, row: int|
        0 <= row < rows && 0 <= col < cols ==> #[trigger] value_at(grid, col, row) == painted(ships, col, row)
}

/// Where no two ships occupy a common cell, a cell that one of them occupies
/// is painted with that ship's identifier.
pub proof fn lemma_painted_covered(ships: Seq<ShipBoundingBox>, i: int, col: int, row: int)
    requires
        ships_valid(ships),
        0 <= i < ships.len(),
        ships[i].covers(col, row),
    ensures
        painted(ships, col, row) == ships[i].ship_id(),
    decreases ships.len(),
{
    let last = ships.len() - 1;
    if i == last {
    } else {
        if ships.last().covers(col, row) {
            assert(crate::board::in_span(
                crate::board::cell(ships[i].start()),
                crate::board::cell(ships[i].end()),
                col,
                row,
            ));
            assert(ships[i].shares_cell(&ships[last]));
            assert(false);
        }
        let rest = ships.drop_last();
        assert(rest[i] == ships[i]);
        lemma_ships_valid_prefix(ships, last);
        assert(rest == ships.subrange(0, last));
        lemma_painted_covered(rest, i, col, row);
    }
}

/// A cell that is not painted as water is occupied by a ship with the
/// identifier that it shows.
pub proof fn lemma_painted_source(ships: Seq<ShipBoundingBox>, col: int, row: int) -> (i: int)
    requires
        painted(ships, col, row) != 0,
    ensures
        0 <= i < ships.len(),
        ships[i].covers(col, row),
        ships[i].ship_id() == painted(ships, col, row),
    decreases ships.len(),
{
    if ships.last().covers(col, row) {
        ships.len() - 1
    } else {
        let rest = ships.drop_last();
        let i = lemma_painted_source(rest, col, row);
        assert(rest[i] == ships[i]);
        i
    }
}

/// The first `n` of sound ships are sound.
pub proof fn lemma_ships_valid_prefix(ships: Seq<ShipBoundingBox>, n: int)
    requires
        ships_valid(ships),
        0 <= n <= ships.len(),
    ensures
        ships_valid(ships.subrange(0, n)),
{
    let part = ships.subrange(0, n);
    assert forall|i: int, j: int|
        #![trigger part[i], part[j]]
        0 <= i < j < part.len() implies part[i].ship_id() != part[j].ship_id() && !part[i].shares_cell(&part[j]) by {
        assert(part[i] == ships[i] && part[j] == ships[j]);
    }
    assert forall|i: int| 0 <= i < part.len() implies (#[trigger] part[i]).wf() by {
        assert(part[i] == ships[i]);
    }
}

/// A grid of `rows` rows of `cols` cells, all water.
pub fn water(cols: usize, rows: usize) -> (grid: Vec<Vec<usize>>)
    ensures
        is_rectangle(grid_view(&grid), cols as int, rows as int),
        forall|col: int, row: int| #[trigger] value_at(grid_view(&grid), col, row) == 0,
{
    let mut grid: Vec<Vec<usize>> = Vec::new();
    let mut row: usize = 0;
    while row < rows
        invariant
            row <= rows,
            grid@.len() == row,
            forall|r: int| 0 <= r < row ==> (#[trigger] grid@[r])@.len() == cols,
            forall|r: int, c: int| 0 <= r < row && 0 <= c < cols ==> #[trigger] grid@[r]@[c] == 0,
        decreases rows - row,
    {
        let mut line: Vec<usize> = Vec::new();
        let mut col: usize = 0;
        while col < cols
            invariant
                col <= cols,
                line@.len() == col,
                forall|c: int| 0 <= c < col ==> line@[c] == 0,
            decreases cols - col,
        {
            line.push(0);
            col += 1;
        }
        grid.push(line);
        row += 1;
    }
    assert forall|col: int, row: int| #[trigger] value_at(grid_view(&grid), col, row) == 0 by {
        if 0 <= row < rows && 0 <= col < cols {
            assert(grid@[row]@[col] == 0);
        }
    }
    grid
}

/// Writes the ship's identifier into each of its cells that lies on the
/// grid, and leaves the other cells as they are.
pub fn paint_ship(grid: &mut Vec<Vec<usize>>, ship: &ShipBoundingBox, cols: usize, rows: usize)
    requires
        is_rectangle(grid_view(old(grid)), cols as int, rows as int),
    ensures
        is_rectangle(grid_view(final(grid)), cols as int, rows as int),
        forall|col: int, row: int|
            0 <= row < rows && 0 <= col < cols ==> #[trigger] value_at(grid_view(final(grid)), col, row) == if ship.covers(
                col,
                row,
            ) {
                ship.ship_id()
            } else {
                value_at(grid_view(old(grid)), col, row)
            },
{
    proof {
        use_type_invariant(ship);
    }
    let (x1, y1) = ship.start();
    let (x2, y2) = ship.end();
    let id: usize = ship.ship_id();
    let ghost before = grid_view(grid);
    if y1 == y2 {
        // The ship lies in one row.
        if y1 < rows {
            let mut x: usize = x1;
            while x <= x2 && x < cols
                invariant
                    x1 <= x,
                    y1 == y2 < rows,
                    ship.start() == (x1, y1),
                    ship.end() == (x2, y2),
                    ship.ship_id() == id,
                    is_rectangle(before, cols as int, rows as int),
                    is_rectangle(grid_view(grid), cols as int, rows as int),
                    forall|col: int, row: int|
                        0 <= row < rows && 0 <= col < cols ==> #[trigger] value_at(grid_view(grid), col, row) == if ship.covers(
                            col,
                            row,
                        ) && col < x {
                            id
                        } else {
                            value_at(before, col, row)
                        },
                decreases cols - x,
            {
                let ghost prior = grid_view(grid);
                assert(grid_view(grid)[y1 as int].len() == cols);
                grid[y1][x] = id;
                proof {
                    let now = grid_view(grid);
                    assert forall|row: int| 0 <= row < rows implies (#[trigger] now[row]).len() == cols by {
                        assert(prior[row].len() == cols);
                    }
                    assert forall|col: int, row: int| 0 <= row < rows && 0 <= col < cols implies #[trigger] value_at(
                        now,
                        col,
                        row,
                    ) == if ship.covers(col, row) && col < x + 1 {
                        id
                    } else {
                        value_at(before, col, row)
                    } by {
                        assert(value_at(prior, col, row) == if ship.covers(col, row) && col < x {
                            id
                        } else {
                            value_at(before, col, row)
                        });
                    }
                }
                x += 1;
            }
        }
    } else {
        // The ship lies in one column.
        if x1 < cols {
            let mut y: usize = y1;
            while y <= y2 && y < rows
                invariant
                    y1 <= y,
                    x1 == x2 < cols,
                    ship.start() == (x1, y1),
                    ship.end() == (x2, y2),
                    ship.ship_id() == id,
                    is_rectangle(before, cols as int, rows as int),
                    is_rectangle(grid_view(grid), cols as int, rows as int),
                    forall|col: int, row: int|
                        0 <= row < rows && 0 <= col < cols ==> #[trigger] value_at(grid_view(grid), col, row) == if ship.covers(
                            col,
                            row,
                        ) && row < y {
                            id
                        } else {
                            value_at(before, col, row)
                        },
                decreases rows - y,
            {
                let ghost prior = grid_view(grid);
                assert(grid_view(grid)[y as int].len() == cols);
                grid[y][x1] = id;
                proof {
                    let now = grid_view(grid);
                    assert forall|row: int| 0 <= row < rows implies (#[trigger] now[row]).len() == cols by {
                        assert(prior[row].len() == cols);
                    }
                    assert forall|col: int, row: int| 0 <= row < rows && 0 <= col < cols implies #[trigger] value_at(
                        now,
                        col,
                        row,
                    ) == if ship.covers(col, row) && row < y + 1 {
                        id
                    } else {
                        value_at(before, col, row)
                    } by {
                        assert(value_at(prior, col, row) == if ship.covers(col, row) && row < y {
                            id
                        } else {
                            value_at(before, col, row)
                        });
                    }
                }
                y += 1;
            }
        }
    }
}

/// Flattens a player's ships into a grid of the game's dimensions: takes the
/// ships off the player one by one, first to last, and writes each ship's
/// identifier into its cells. Cells of a ship that lie off the grid are left out.
pub fn create_my_board_from_player(myboard: &GameData, player: &mut PlayBoard) -> (grid: Vec<Vec<usize>>)
    requires
        old(player).wf(),
    ensures
        is_painting(grid_view(&grid), old(player).ships(), myboard@.cols as int, myboard@.rows as int),
        final(player).wf(),
        final(player).ships().len() == 0,
        final(player).name() == old(player).name(),
        final(player).get_playernum() == old(player).get_playernum(),
{
    let (my_cols, my_rows) = myboard.get_col_row();
    let mut tmpboard = water(my_cols, my_rows);
    let ghost all = player.ships();
    let ghost mut done: int = 0;
    loop
        invariant
            player.wf(),
            player.name() == old(player).name(),
            player.get_playernum() == old(player).get_playernum(),
            all == old(player).ships(),
            0 <= done <= all.len(),
            player.ships() == all.subrange(done, all.len() as int),
            is_painting(grid_view(&tmpboard), all.subrange(0, done), my_cols as int, my_rows as int),
        ensures
            player.wf(),
            player.name() == old(player).name(),
            player.get_playernum() == old(player).get_playernum(),
            player.ships().len() == 0,
            is_painting(grid_view(&tmpboard), all, my_cols as int, my_rows as int),
        decreases all.len() - done,
    {
        let ghost prior = grid_view(&tmpboard);
        match player.remove_first_ship() {
            None => {
                assert(all.subrange(0, done) == all);
                break;
            },
            Some(this_ship) => {
                paint_ship(&mut tmpboard, &this_ship, my_cols, my_rows);
                proof {
                    let shown = all.subrange(0, done);
                    let next = all.subrange(0, done + 1);
                    assert(this_ship == all[done]);
                    assert(next.last() == this_ship);
                    assert(next.drop_last() == shown);
                    assert(player.ships() == all.subrange(done + 1, all.len() as int));
                    assert forall|col: int, row: int|
                        0 <= row < my_rows && 0 <= col < my_cols implies #[trigger] value_at(
                        grid_view(&tmpboard),
                        col,
                        row,
                    ) == painted(next, col, row) by {
                        assert(value_at(prior, col, row) == painted(shown, col, row));
                    }
                    done = done + 1;
                }
            },
        }
    }
    tmpboard
}

} // verus!
