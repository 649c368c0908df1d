//! Reading a player's ships back from a cell grid.
//!
//! The cells that hold one identifier are a group. A group stands for a ship
//! when its cells are exactly the cells of one straight segment whose length
//! is the identifier.

use vstd::prelude::*;
use std::collections::HashMap;
use crate::board::{
    cell, has_ship_id, hits_segment, in_span, placement_error, segment_end, spans_meet, GameData, PlayBoard,
    ShipBoundingBox,
};
use crate::enums::{Direction, LoadError};
use crate::grid::{grid_view, value_at};

verus! {

/// Whether the cell `(col1, row1)` is met before `(col2, row2)` when the grid
/// is read row by row, each row from its first column on.
pub open spec fn comes_before(col1: int, row1: int, col2: int, row2: int) -> bool {
    row1 < row2 || (row1 == row2 && col1 < col2)
}

/// The cells that hold `id` are exactly the cells from `lo` to `hi`.
pub open spec fn is_group(grid: Seq<Seq<usize>>, id: usize, lo: (int, int), hi: (int, int)) -> bool {
    &&& 0 <= lo.0 <= hi.0
    &&& 0 <= lo.1 <= hi.1
    &&& forall|col: int, row: int| #[trigger] value_at(grid, col, row) == id <==> in_span(lo, hi, col, row)
}

/// The cells from `lo` to `hi` are one straight segment of `id` cells.
pub open spec fn is_line_of(id: usize, lo: (int, int), hi: (int, int)) -> bool {
    &&& lo.0 == hi.0 || lo.1 == hi.1
    &&& (hi.0 - lo.0) + (hi.1 - lo.1) + 1 == id
}

/// The cells that hold `id` form one straight segment of `id` cells.
pub open spec fn group_ok(grid: Seq<Seq<usize>>, id: usize) -> bool {
    exists|lo: (int, int), hi: (int, int)| #[trigger] is_group(grid, id, lo, hi) && is_line_of(id, lo, hi)
}

/// The grid shows `ship`: the cells that hold its identifier are exactly its
/// cells, and it has as many cells as its identifier says.
pub open spec fn shows_ship(grid: Seq<Seq<usize>>, ship: &ShipBoundingBox) -> bool {
    &&& is_group(grid, ship.ship_id(), cell(ship.start()), cell(ship.end()))
    &&& is_line_of(ship.ship_id(), cell(ship.start()), cell(ship.end()))
}

/// `ships` are the ships that the grid shows: one for each identifier in it,
/// in the order in which their first cells are met when the grid is read.
pub open spec fn rebuilt_from(grid: Seq<Seq<usize>>, ships: Seq<ShipBoundingBox>) -> bool {
    &&& forall|k: int| 0 <= k < ships.len() ==> shows_ship(grid, #[trigger] &ships[k])
    &&& forall|col: int, row: int| #[trigger]
        value_at(grid, col, row) != 0 ==> has_ship_id(ships, value_at(grid, col, row))
    &&& forall|i: int, j: int|
        #![trigger ships[i], ships[j]]
        0 <= i < j < ships.len() ==> comes_before(
            ships[i].start().0 as int,
            ships[i].start().1 as int,
            ships[j].start().0 as int,
            ships[j].start().1 as int,
        )
}

/// The cell `(col, row)` holds an identifier whose cells are not one
/// straight segment of as many cells as the identifier says.
pub open spec fn malformed_at(grid: Seq<Seq<usize>>, col: int, row: int) -> bool {
    value_at(grid, col, row) != 0 && !group_ok(grid, value_at(grid, col, row))
}

/// `id` is the identifier of the first cell in reading order that [`malformed_at`] holds of.
pub open spec fn first_malformed(grid: Seq<Seq<usize>>, id: usize) -> bool {
    exists|col: int, row: int|
        {
            &&& #[trigger] value_at(grid, col, row) == id
            &&& malformed_at(grid, col, row)
            &&& forall|c2: int, r2: int| comes_before(c2, r2, col, row) ==> !#[trigger] malformed_at(grid, c2, r2)
        }
}

/// A player with `ships` can have, on the grid of `board`, a ship with the
/// identifier `id` on the cells from `lo` to `hi`.
pub open spec fn span_admissible(
    board: &GameData,
    ships: Seq<ShipBoundingBox>,
    id: usize,
    lo: (int, int),
    hi: (int, int),
) -> bool {
    &&& board.on_grid(lo.0, lo.1)
    &&& board.on_grid(hi.0, hi.1)
    &&& !has_ship_id(ships, id)
    &&& forall|i: int|
        0 <= i < ships.len() ==> !spans_meet(cell((#[trigger] ships[i]).start()), cell(ships[i].end()), lo, hi)
}

/// The cell `(col, row)` holds an identifier whose cells a player with
/// `ships` cannot have as a ship on the grid of `board`.
pub open spec fn unplaceable_at(
    grid: Seq<Seq<usize>>,
    board: &GameData,
    ships: Seq<ShipBoundingBox>,
    col: int,
    row: int,
) -> bool {
    &&& value_at(grid, col, row) != 0
    &&& exists|lo: (int, int), hi: (int, int)| #[trigger]
        is_group(grid, value_at(grid, col, row), lo, hi) && !span_admissible(
            board,
            ships,
            value_at(grid, col, row),
            lo,
            hi,
        )
}

/// `id` is the identifier of the first cell in reading order that [`unplaceable_at`] holds of.
pub open spec fn first_unplaceable(
    grid: Seq<Seq<usize>>,
    board: &GameData,
    ships: Seq<ShipBoundingBox>,
    id: usize,
) -> bool {
    exists|col: int, row: int|
        {
            &&& #[trigger] value_at(grid, col, row) == id
            &&& unplaceable_at(grid, board, ships, col, row)
            &&& forall|c2: int, r2: int|
                comes_before(c2, r2, col, row) ==> !#[trigger] unplaceable_at(grid, board, ships, c2, r2)
        }
}

/// The bounds of the cells that hold one identifier, among the cells read so far.
#[derive(Clone, Copy)]
struct Extent {
    id: usize,
    /// Column of the first cell met; its row is `min_row`.
    first_col: usize,
    min_row: usize,
    max_row: usize,
    min_col: usize,
    max_col: usize,
}

/// The cell `(col, row)` has been read when the next cell to read is `(c, r)`.
spec fn scanned(col: int, row: int, c: int, r: int) -> bool {
    0 <= col && 0 <= row && comes_before(col, row, c, r)
}

/// `e` holds the bounds of the cells read so far that hold `e.id`.
spec fn extent_tracks(grid: Seq<Seq<usize>>, e: Extent, c: int, r: int) -> bool {
    &&& e.id != 0
    &&& scanned(e.first_col as int, e.min_row as int, c, r)
    &&& value_at(grid, e.first_col as int, e.min_row as int) == e.id
    &&& forall|col: int, row: int|
        scanned(col, row, c, r) && #[trigger] value_at(grid, col, row) == e.id ==> {
            &&& e.min_col <= col <= e.max_col
            &&& e.min_row <= row <= e.max_row
            &&& !comes_before(col, row, e.first_col as int, e.min_row as int)
        }
    &&& exists|row: int|
        scanned(e.min_col as int, row, c, r) && #[trigger] value_at(grid, e.min_col as int, row) == e.id
    &&& exists|row: int|
        scanned(e.max_col as int, row, c, r) && #[trigger] value_at(grid, e.max_col as int, row) == e.id
    &&& exists|col: int|
        scanned(col, e.max_row as int, c, r) && #[trigger] value_at(grid, col, e.max_row as int) == e.id
}

/// `exts` holds one extent for each identifier met so far, in the order in
/// which the identifiers were first met.
spec fn extents_track(grid: Seq<Seq<usize>>, exts: Seq<Extent>, c: int, r: int) -> bool {
    &&& forall|k: int| 0 <= k < exts.len() ==> extent_tracks(grid, #[trigger] exts[k], c, r)
    &&& forall|col: int, row: int|
        scanned(col, row, c, r) && #[trigger] value_at(grid, col, row) != 0 ==> has_extent(
            exts,
            value_at(grid, col, row),
        )
    &&& forall|i: int, j: int|
        #![trigger exts[i], exts[j]]
        0 <= i < j < exts.len() ==> exts[i].id != exts[j].id && comes_before(
            exts[i].first_col as int,
            exts[i].min_row as int,
            exts[j].first_col as int,
            exts[j].min_row as int,
        )
}

spec fn has_extent(exts: Seq<Extent>, id: usize) -> bool {
    exists|k: int| 0 <= k < exts.len() && (#[trigger] exts[k]).id == id
}

/// Reading on over cells of water changes nothing.
proof fn lemma_skip_water(grid: Seq<Seq<usize>>, exts: Seq<Extent>, c: int, r: int, c2: int, r2: int)
    requires
        extents_track(grid, exts, c, r),
        !comes_before(c2, r2, c, r),
        forall|col: int, row: int|
            scanned(col, row, c2, r2) && !scanned(col, row, c, r) ==> #[trigger] value_at(grid, col, row) == 0,
    ensures
        extents_track(grid, exts, c2, r2),
{
    assert forall|k: int| 0 <= k < exts.len() implies extent_tracks(grid, #[trigger] exts[k], c2, r2) by {
        let e = exts[k];
        assert(extent_tracks(grid, e, c, r));
        let w1 = choose|row: int|
            scanned(e.min_col as int, row, c, r) && #[trigger] value_at(grid, e.min_col as int, row) == e.id;
        assert(scanned(e.min_col as int, w1, c2, r2));
        let w2 = choose|row: int|
            scanned(e.max_col as int, row, c, r) && #[trigger] value_at(grid, e.max_col as int, row) == e.id;
        assert(scanned(e.max_col as int, w2, c2, r2));
        let w3 = choose|col: int|
            scanned(col, e.max_row as int, c, r) && #[trigger] value_at(grid, col, e.max_row as int) == e.id;
        assert(scanned(w3, e.max_row as int, c2, r2));
    }
}

/// `index` tells for each identifier that has an extent where in `exts`
/// its extent stands, and holds no other identifier.
spec fn index_tracks(index: Map<usize, usize>, exts: Seq<Extent>) -> bool {
    &&& forall|id: usize| index.dom().contains(id) <==> has_extent(exts, id)
    &&& forall|id: usize|
        index.dom().contains(id) ==> (#[trigger] index[id]) < exts.len() && exts[index[id] as int].id == id
}

/// The position of the extent for `id`, if there is one.
fn find_extent(index: &HashMap<usize, usize>, exts: &Vec<Extent>, id: usize) -> (r: Option<usize>)
    requires
        index_tracks(index@, exts@),
    ensures
        match r {
            Some(k) => k < exts@.len() && exts@[k as int].id == id,
            None => !has_extent(exts@, id),
        },
{
    broadcast use vstd::std_specs::hash::group_hash_axioms;

    match index.get(&id) {
        Some(k) => Some(*k),
        None => None,
    }
}

/// `e` with the cell `(c, r)` taken in.
spec fn widened(e: Extent, c: usize, r: usize) -> Extent {
    Extent {
        id: e.id,
        first_col: e.first_col,
        min_row: e.min_row,
        max_row: r,
        min_col: if c < e.min_col {
            c
        } else {
            e.min_col
        },
        max_col: if c > e.max_col {
            c
        } else {
            e.max_col
        },
    }
}

/// The extent of an identifier first met at `(c, r)`.
spec fn fresh(id: usize, c: usize, r: usize) -> Extent {
    Extent { id, first_col: c, min_row: r, max_row: r, min_col: c, max_col: c }
}

/// Reading a cell of an identifier met before widens its extent.
proof fn lemma_widen(grid: Seq<Seq<usize>>, exts: Seq<Extent>, k: int, c: usize, r: usize)
    requires
        extents_track(grid, exts, c as int, r as int),
        0 <= k < exts.len(),
        value_at(grid, c as int, r as int) == exts[k].id,
    ensures
        extents_track(grid, exts.update(k, widened(exts[k], c, r)), c + 1, r as int),
{
    let after = exts.update(k, widened(exts[k], c, r));
    let id = exts[k].id;
    assert forall|j: int| 0 <= j < after.len() implies extent_tracks(grid, #[trigger] after[j], c + 1, r as int) by {
        let e = exts[j];
        assert(extent_tracks(grid, e, c as int, r as int));
        let w1 = choose|row: int|
            scanned(e.min_col as int, row, c as int, r as int) && #[trigger] value_at(grid, e.min_col as int, row) == e.id;
        let w2 = choose|row: int|
            scanned(e.max_col as int, row, c as int, r as int) && #[trigger] value_at(grid, e.max_col as int, row) == e.id;
        let w3 = choose|col: int|
            scanned(col, e.max_row as int, c as int, r as int) && #[trigger] value_at(grid, col, e.max_row as int) == e.id;
        if j == k {
            let n = after[j];
            assert(n == widened(e, c, r));
            assert(scanned(c as int, r as int, c + 1, r as int));
            if c < e.min_col {
                assert(value_at(grid, n.min_col as int, r as int) == n.id);
            } else {
                assert(scanned(n.min_col as int, w1, c + 1, r as int));
            }
            if c > e.max_col {
                assert(value_at(grid, n.max_col as int, r as int) == n.id);
            } else {
                assert(scanned(n.max_col as int, w2, c + 1, r as int));
            }
            assert(value_at(grid, c as int, n.max_row as int) == n.id);
            assert(scanned(e.first_col as int, e.min_row as int, c as int, r as int));
            assert(scanned(w3, e.max_row as int, c as int, r as int));
            assert forall|col: int, row: int|
                scanned(col, row, c + 1, r as int) && #[trigger] value_at(grid, col, row) == n.id implies {
                &&& n.min_col <= col <= n.max_col
                &&& n.min_row <= row <= n.max_row
                &&& !comes_before(col, row, n.first_col as int, n.min_row as int)
            } by {
                if scanned(col, row, c as int, r as int) {
                } else {
                    assert(col == c && row == r);
                }
            }
        } else {
            assert(after[j] == e);
            assert(scanned(e.min_col as int, w1, c + 1, r as int));
            assert(scanned(e.max_col as int, w2, c + 1, r as int));
            assert(scanned(w3, e.max_row as int, c + 1, r as int));
            assert(exts[j].id != exts[k].id);
        }
    }
    assert forall|col: int, row: int|
        scanned(col, row, c + 1, r as int) && #[trigger] value_at(grid, col, row) != 0 implies has_extent(
        after,
        value_at(grid, col, row),
    ) by {
        let v = value_at(grid, col, row);
        if scanned(col, row, c as int, r as int) {
            assert(has_extent(exts, v));
            let j = choose|j: int| 0 <= j < exts.len() && (#[trigger] exts[j]).id == v;
            assert(after[j].id == v);
        } else {
            assert(col == c && row == r);
            assert(after[k].id == v);
        }
    }
    assert forall|i: int, j: int|
        #![trigger after[i], after[j]]
        0 <= i < j < after.len() implies after[i].id != after[j].id && comes_before(
        after[i].first_col as int,
        after[i].min_row as int,
        after[j].first_col as int,
        after[j].min_row as int,
    ) by {
        assert(exts[i].id != exts[j].id);
        assert(after[i].id == exts[i].id && after[i].first_col == exts[i].first_col && after[i].min_row
            == exts[i].min_row);
        assert(after[j].id == exts[j].id && after[j].first_col == exts[j].first_col && after[j].min_row
            == exts[j].min_row);
    }
}

/// Reading a cell of an identifier not met before opens an extent for it.
proof fn lemma_open(grid: Seq<Seq<usize>>, exts: Seq<Extent>, c: usize, r: usize)
    requires
        extents_track(grid, exts, c as int, r as int),
        value_at(grid, c as int, r as int) != 0,
        !has_extent(exts, value_at(grid, c as int, r as int)),
    ensures
        extents_track(grid, exts.push(fresh(value_at(grid, c as int, r as int), c, r)), c + 1, r as int),
{
    let id = value_at(grid, c as int, r as int);
    let n = fresh(id, c, r);
    let after = exts.push(n);
    assert(scanned(c as int, r as int, c + 1, r as int));
    assert forall|col: int, row: int|
        scanned(col, row, c as int, r as int) implies #[trigger] value_at(grid, col, row) != id by {
        if value_at(grid, col, row) == id {
            assert(has_extent(exts, value_at(grid, col, row)));
        }
    }
    assert forall|j: int| 0 <= j < after.len() implies extent_tracks(grid, #[trigger] after[j], c + 1, r as int) by {
        if j == exts.len() {
            assert(after[j] == n);
            assert(value_at(grid, n.min_col as int, r as int) == n.id);
            assert(value_at(grid, n.max_col as int, r as int) == n.id);
            assert(value_at(grid, c as int, n.max_row as int) == n.id);
            assert forall|col: int, row: int|
                scanned(col, row, c + 1, r as int) && #[trigger] value_at(grid, col, row) == n.id implies {
                &&& n.min_col <= col <= n.max_col
                &&& n.min_row <= row <= n.max_row
                &&& !comes_before(col, row, n.first_col as int, n.min_row as int)
            } by {
                if scanned(col, row, c as int, r as int) {
                    assert(value_at(grid, col, row) != id);
                }
            }
        } else {
            let e = exts[j];
            assert(after[j] == e);
            assert(extent_tracks(grid, e, c as int, r as int));
            assert(e.id != id) by {
                if e.id == id {
                    assert(has_extent(exts, id));
                }
            }
            let w1 = choose|row: int|
                scanned(e.min_col as int, row, c as int, r as int) && #[trigger] value_at(grid, e.min_col as int, row) == e.id;
            let w2 = choose|row: int|
                scanned(e.max_col as int, row, c as int, r as int) && #[trigger] value_at(grid, e.max_col as int, row) == e.id;
            let w3 = choose|col: int|
                scanned(col, e.max_row as int, c as int, r as int) && #[trigger] value_at(grid, col, e.max_row as int) == e.id;
            assert(scanned(e.min_col as int, w1, c + 1, r as int));
            assert(scanned(e.max_col as int, w2, c + 1, r as int));
            assert(scanned(w3, e.max_row as int, c + 1, r as int));
        }
    }
    assert forall|col: int, row: int|
        scanned(col, row, c + 1, r as int) && #[trigger] value_at(grid, col, row) != 0 implies has_extent(
        after,
        value_at(grid, col, row),
    ) by {
        let v = value_at(grid, col, row);
        if scanned(col, row, c as int, r as int) {
            assert(has_extent(exts, v));
            let j = choose|j: int| 0 <= j < exts.len() && (#[trigger] exts[j]).id == v;
            assert(after[j].id == v);
        } else {
            assert(col == c && row == r);
            assert(after[exts.len() as int].id == v);
        }
    }
    assert forall|i: int, j: int|
        #![trigger after[i], after[j]]
        0 <= i < j < after.len() implies after[i].id != after[j].id && comes_before(
        after[i].first_col as int,
        after[i].min_row as int,
        after[j].first_col as int,
        after[j].min_row as int,
    ) by {
        if j == exts.len() {
            let e = exts[i];
            assert(after[i] == e);
            assert(extent_tracks(grid, e, c as int, r as int));
            if e.id == id {
                assert(has_extent(exts, id));
            }
        } else {
            assert(after[i] == exts[i] && after[j] == exts[j]);
        }
    }
}

/// Reads the grid row by row and gathers, for each identifier in it, the
/// bounds of the cells that hold it.
fn find_extents(grid: &Vec<Vec<usize>>) -> (exts: Vec<Extent>)
    ensures
        extents_track(grid_view(grid), exts@, 0, grid@.len() as int),
{
    broadcast use vstd::std_specs::hash::group_hash_axioms;

    let ghost g = grid_view(grid);
    let mut exts: Vec<Extent> = Vec::new();
    // Where the extent of each identifier stands in the list.
    let mut index: HashMap<usize, usize> = HashMap::new();
    let rows: usize = grid.len();
    let mut r: usize = 0;
    while r < rows
        invariant
            r <= rows == grid@.len(),
            g == grid_view(grid),
            extents_track(g, exts@, 0, r as int),
            index_tracks(index@, exts@),
        decreases rows - r,
    {
        let cols: usize = grid[r].len();
        let mut c: usize = 0;
        while c < cols
            invariant
                r < rows == grid@.len(),
                c <= cols == grid@[r as int]@.len(),
                g == grid_view(grid),
                extents_track(g, exts@, c as int, r as int),
                index_tracks(index@, exts@),
            decreases cols - c,
        {
            let v: usize = grid[r][c];
            assert(v == value_at(g, c as int, r as int));
            if v == 0 {
                proof {
                    lemma_skip_water(g, exts@, c as int, r as int, c + 1, r as int);
                }
            } else {
                match find_extent(&index, &exts, v) {
                    Some(k) => {
                        let e = exts[k];
                        let ghost before = exts@;
                        proof {
                            lemma_widen(g, exts@, k as int, c, r);
                        }
                        exts[k] = Extent {
                            id: e.id,
                            first_col: e.first_col,
                            min_row: e.min_row,
                            max_row: r,
                            min_col: if c < e.min_col {
                                c
                            } else {
                                e.min_col
                            },
                            max_col: if c > e.max_col {
                                c
                            } else {
                                e.max_col
                            },
                        };
                        proof {
                            // The identifiers stand where they stood.
                            let after = exts@;
                            assert forall|j: int| 0 <= j < after.len() implies (#[trigger] after[j]).id == before[j].id by {}
                            assert forall|id: usize| has_extent(after, id) <==> has_extent(before, id) by {
                                if has_extent(after, id) {
                                    let j = choose|j: int| 0 <= j < after.len() && (#[trigger] after[j]).id == id;
                                    assert(before[j].id == id);
                                }
                                if has_extent(before, id) {
                                    let j = choose|j: int| 0 <= j < before.len() && (#[trigger] before[j]).id == id;
                                    assert(after[j].id == id);
                                }
                            }
                        }
                    },
                    None => {
                        let ghost before = exts@;
                        proof {
                            lemma_open(g, exts@, c, r);
                        }
                        index.insert(v, exts.len());
                        exts.push(Extent { id: v, first_col: c, min_row: r, max_row: r, min_col: c, max_col: c });
                        proof {
                            let after = exts@;
                            assert forall|id: usize| has_extent(after, id) <==> (id == v || has_extent(before, id)) by {
                                if has_extent(after, id) {
                                    let j = choose|j: int| 0 <= j < after.len() && (#[trigger] after[j]).id == id;
                                    if j < before.len() {
                                        assert(before[j].id == id);
                                    }
                                }
                                if has_extent(before, id) {
                                    let j = choose|j: int| 0 <= j < before.len() && (#[trigger] before[j]).id == id;
                                    assert(after[j].id == id);
                                }
                                if id == v {
                                    assert(after[before.len() as int].id == id);
                                }
                            }
                        }
                    },
                }
            }
            c += 1;
        }
        proof {
            lemma_skip_water(g, exts@, c as int, r as int, 0, r + 1);
        }
        r += 1;
    }
    exts
}

/// What the grid holds at the cell `(col, row)`.
pub fn cell_at(grid: &Vec<Vec<usize>>, col: usize, row: usize) -> (v: usize)
    ensures
        v == value_at(grid_view(grid), col as int, row as int),
{
    if row < grid.len() && col < grid[row].len() {
        grid[row][col]
    } else {
        0
    }
}

spec fn lo_of(e: Extent) -> (int, int) {
    (e.min_col as int, e.min_row as int)
}

spec fn hi_of(e: Extent) -> (int, int) {
    (e.max_col as int, e.max_row as int)
}

/// Every cell from `lo` to `hi` holds `id`.
spec fn line_full(grid: Seq<Seq<usize>>, id: usize, lo: (int, int), hi: (int, int)) -> bool {
    forall|col: int, row: int| in_span(lo, hi, col, row) ==> #[trigger] value_at(grid, col, row) == id
}

/// The extent of an identifier whose cells are one straight segment of as
/// many cells as the identifier says.
spec fn extent_is_ship(grid: Seq<Seq<usize>>, e: Extent) -> bool {
    &&& is_group(grid, e.id, lo_of(e), hi_of(e))
    &&& is_line_of(e.id, lo_of(e), hi_of(e))
    &&& e.first_col == e.min_col
}

/// Once the whole grid is read, a segment that holds exactly the cells of
/// an identifier has the bounds that were gathered for it.
proof fn lemma_group_is_box(grid: Seq<Seq<usize>>, e: Extent, lo: (int, int), hi: (int, int))
    requires
        extent_tracks(grid, e, 0, grid.len() as int),
        is_group(grid, e.id, lo, hi),
    ensures
        lo == lo_of(e),
        hi == hi_of(e),
{
    let n = grid.len() as int;
    let w1 = choose|row: int|
        scanned(e.min_col as int, row, 0, n) && #[trigger] value_at(grid, e.min_col as int, row) == e.id;
    let w2 = choose|row: int|
        scanned(e.max_col as int, row, 0, n) && #[trigger] value_at(grid, e.max_col as int, row) == e.id;
    let w3 = choose|col: int|
        scanned(col, e.max_row as int, 0, n) && #[trigger] value_at(grid, col, e.max_row as int) == e.id;
    assert(in_span(lo, hi, e.min_col as int, w1));
    assert(in_span(lo, hi, e.max_col as int, w2));
    assert(in_span(lo, hi, w3, e.max_row as int));
    assert(in_span(lo, hi, e.first_col as int, e.min_row as int));
    assert(in_span(lo, hi, lo.0, lo.1));
    assert(value_at(grid, lo.0, lo.1) == e.id);
    assert(scanned(lo.0, lo.1, 0, n));
    assert(in_span(lo, hi, hi.0, hi.1));
    assert(value_at(grid, hi.0, hi.1) == e.id);
    assert(scanned(hi.0, hi.1, 0, n));
}

/// Whether every cell from `lo` to `hi`, which lie in one row or in one
/// column, holds `id`.
fn line_holds(grid: &Vec<Vec<usize>>, id: usize, lo: (usize, usize), hi: (usize, usize)) -> (full: bool)
    requires
        lo.0 <= hi.0,
        lo.1 <= hi.1,
        lo.0 == hi.0 || lo.1 == hi.1,
    ensures
        full == line_full(grid_view(grid), id, cell(lo), cell(hi)),
{
    let ghost g = grid_view(grid);
    let mut col: usize = lo.0;
    let mut row: usize = lo.1;
    loop
        invariant_except_break
            forall|c: int, r: int|
                in_span(cell(lo), cell(hi), c, r) && comes_before(c, r, col as int, row as int) ==> #[trigger] value_at(
                    g,
                    c,
                    r,
                ) == id,
        invariant
            g == grid_view(grid),
            lo.0 <= hi.0,
            lo.1 <= hi.1,
            lo.0 == hi.0 || lo.1 == hi.1,
            in_span(cell(lo), cell(hi), col as int, row as int),
        ensures
            in_span(cell(lo), cell(hi), col as int, row as int),
            forall|c: int, r: int|
                in_span(cell(lo), cell(hi), c, r) && comes_before(c, r, col as int, row as int) ==> #[trigger] value_at(
                    g,
                    c,
                    r,
                ) == id,
            value_at(g, col as int, row as int) != id || (col == hi.0 && row == hi.1),
        decreases (hi.0 - col) + (hi.1 - row),
    {
        if cell_at(grid, col, row) != id {
            break;
        }
        if col == hi.0 && row == hi.1 {
            break;
        }
        if lo.0 == hi.0 {
            row += 1;
        } else {
            col += 1;
        }
    }
    let full = cell_at(grid, col, row) == id;
    proof {
        if full {
            assert forall|c: int, r: int| in_span(cell(lo), cell(hi), c, r) implies #[trigger] value_at(g, c, r)
                == id by {
                if !comes_before(c, r, col as int, row as int) {
                    assert(c == col && r == row);
                }
            }
        }
    }
    full
}

/// Whether the cells that hold the identifier of `e` are one straight
/// segment of as many cells as the identifier says.
fn is_ship(grid: &Vec<Vec<usize>>, e: &Extent) -> (ok: bool)
    requires
        extent_tracks(grid_view(grid), *e, 0, grid@.len() as int),
    ensures
        ok == group_ok(grid_view(grid), e.id),
        ok ==> extent_is_ship(grid_view(grid), *e),
{
    let ghost g = grid_view(grid);
    assert(e.min_col <= e.first_col <= e.max_col && e.min_row <= e.max_row);
    let straight = e.min_col == e.max_col || e.min_row == e.max_row;
    let ok = straight && line_holds(grid, e.id, (e.min_col, e.min_row), (e.max_col, e.max_row)) && (e.max_col
        - e.min_col) + (e.max_row - e.min_row) == e.id - 1;
    proof {
        if ok {
            assert forall|col: int, row: int| #[trigger] value_at(g, col, row) == e.id <==> in_span(
                lo_of(*e),
                hi_of(*e),
                col,
                row,
            ) by {
                if value_at(g, col, row) == e.id {
                    assert(scanned(col, row, 0, g.len() as int));
                }
            }
            assert(is_group(g, e.id, lo_of(*e), hi_of(*e)));
            assert(value_at(g, e.min_col as int, e.min_row as int) == e.id);
            assert(scanned(e.min_col as int, e.min_row as int, 0, g.len() as int));
        }
        if group_ok(g, e.id) {
            let (lo, hi) = choose|lo: (int, int), hi: (int, int)| #[trigger]
                is_group(g, e.id, lo, hi) && is_line_of(e.id, lo, hi);
            lemma_group_is_box(g, *e, lo, hi);
            assert forall|col: int, row: int| in_span(lo, hi, col, row) implies #[trigger] value_at(g, col, row)
                == e.id by {}
        }
    }
    ok
}

/// The direction in which the ship of a well-formed extent runs: along its
/// row where it has more than one column, else along its column.
fn direction_of(e: &Extent) -> (d: Direction)
    ensures
        d == if e.max_col > e.min_col {
            Direction::Horizontal
        } else {
            Direction::Vertical
        },
{
    if e.max_col > e.min_col {
        Direction::Horizontal
    } else {
        Direction::Vertical
    }
}

/// A cell of a ship that is met before the first cell of the `k`-th extent
/// belongs to an earlier extent.
proof fn lemma_earlier_extent(grid: Seq<Seq<usize>>, exts: Seq<Extent>, k: int, c2: int, r2: int) -> (j: int)
    requires
        extents_track(grid, exts, 0, grid.len() as int),
        0 <= k < exts.len(),
        comes_before(c2, r2, exts[k].first_col as int, exts[k].min_row as int),
        value_at(grid, c2, r2) != 0,
    ensures
        0 <= j < k,
        exts[j].id == value_at(grid, c2, r2),
{
    let v = value_at(grid, c2, r2);
    assert(scanned(c2, r2, 0, grid.len() as int));
    assert(has_extent(exts, v));
    let j = choose|j: int| 0 <= j < exts.len() && (#[trigger] exts[j]).id == v;
    assert(extent_tracks(grid, exts[j], 0, grid.len() as int));
    assert(extent_tracks(grid, exts[k], 0, grid.len() as int));
    if j > k {
        assert(comes_before(
            exts[k].first_col as int,
            exts[k].min_row as int,
            exts[j].first_col as int,
            exts[j].min_row as int,
        ));
    }
    j
}

/// Every identifier in the grid has an extent.
proof fn lemma_extent_of(grid: Seq<Seq<usize>>, exts: Seq<Extent>, col: int, row: int) -> (j: int)
    requires
        extents_track(grid, exts, 0, grid.len() as int),
        value_at(grid, col, row) != 0,
    ensures
        0 <= j < exts.len(),
        exts[j].id == value_at(grid, col, row),
{
    assert(scanned(col, row, 0, grid.len() as int));
    assert(has_extent(exts, value_at(grid, col, row)));
    choose|j: int| 0 <= j < exts.len() && (#[trigger] exts[j]).id == value_at(grid, col, row)
}

/// The first extent that is no ship names the first malformed identifier.
proof fn lemma_first_malformed(grid: Seq<Seq<usize>>, exts: Seq<Extent>, k: int)
    requires
        extents_track(grid, exts, 0, grid.len() as int),
        0 <= k < exts.len(),
        forall|j: int| 0 <= j < k ==> group_ok(grid, (#[trigger] exts[j]).id),
        !group_ok(grid, exts[k].id),
    ensures
        first_malformed(grid, exts[k].id),
{
    let e = exts[k];
    assert(extent_tracks(grid, e, 0, grid.len() as int));
    let col = e.first_col as int;
    let row = e.min_row as int;
    assert forall|c2: int, r2: int| comes_before(c2, r2, col, row) implies !#[trigger] malformed_at(
        grid,
        c2,
        r2,
    ) by {
        if value_at(grid, c2, r2) != 0 {
            let j = lemma_earlier_extent(grid, exts, k, c2, r2);
            assert(group_ok(grid, exts[j].id));
        }
    }
    assert(value_at(grid, col, row) == e.id && malformed_at(grid, col, row));
}

/// Where every extent is a ship, no cell is malformed.
proof fn lemma_none_malformed(grid: Seq<Seq<usize>>, exts: Seq<Extent>)
    requires
        extents_track(grid, exts, 0, grid.len() as int),
        forall|j: int| 0 <= j < exts.len() ==> group_ok(grid, (#[trigger] exts[j]).id),
    ensures
        forall|col: int, row: int| !#[trigger] malformed_at(grid, col, row),
{
    assert forall|col: int, row: int| !#[trigger] malformed_at(grid, col, row) by {
        if value_at(grid, col, row) != 0 {
            let j = lemma_extent_of(grid, exts, col, row);
            assert(group_ok(grid, exts[j].id));
        }
    }
}

/// A cell of an extent whose ship can be placed is not unplaceable.
proof fn lemma_placeable(
    grid: Seq<Seq<usize>>,
    board: &GameData,
    ships: Seq<ShipBoundingBox>,
    e: Extent,
    col: int,
    row: int,
)
    requires
        extent_tracks(grid, e, 0, grid.len() as int),
        span_admissible(board, ships, e.id, lo_of(e), hi_of(e)),
        value_at(grid, col, row) == e.id,
    ensures
        !unplaceable_at(grid, board, ships, col, row),
{
    assert forall|lo: (int, int), hi: (int, int)| #[trigger] is_group(grid, e.id, lo, hi) implies span_admissible(
        board,
        ships,
        e.id,
        lo,
        hi,
    ) by {
        lemma_group_is_box(grid, e, lo, hi);
    }
}

/// The first extent whose ship cannot be placed names the first unplaceable identifier.
proof fn lemma_first_unplaceable(
    grid: Seq<Seq<usize>>,
    board: &GameData,
    ships: Seq<ShipBoundingBox>,
    exts: Seq<Extent>,
    k: int,
)
    requires
        extents_track(grid, exts, 0, grid.len() as int),
        0 <= k < exts.len(),
        forall|j: int| 0 <= j < k ==> span_admissible(board, ships, (#[trigger] exts[j]).id, lo_of(exts[j]), hi_of(exts[j])),
        is_group(grid, exts[k].id, lo_of(exts[k]), hi_of(exts[k])),
        !span_admissible(board, ships, exts[k].id, lo_of(exts[k]), hi_of(exts[k])),
    ensures
        first_unplaceable(grid, board, ships, exts[k].id),
{
    let e = exts[k];
    assert(extent_tracks(grid, e, 0, grid.len() as int));
    let col = e.first_col as int;
    let row = e.min_row as int;
    assert forall|c2: int, r2: int| comes_before(c2, r2, col, row) implies !#[trigger] unplaceable_at(
        grid,
        board,
        ships,
        c2,
        r2,
    ) by {
        if value_at(grid, c2, r2) != 0 {
            let j = lemma_earlier_extent(grid, exts, k, c2, r2);
            assert(extent_tracks(grid, exts[j], 0, grid.len() as int));
            lemma_placeable(grid, board, ships, exts[j], c2, r2);
        }
    }
    assert(value_at(grid, col, row) == e.id);
    assert(unplaceable_at(grid, board, ships, col, row));
}

/// The ship `ship` is the one that the extent `e` stands for.
spec fn ship_of_extent(ship: &ShipBoundingBox, e: Extent) -> bool {
    &&& ship.ship_id() == e.id
    &&& cell(ship.start()) == lo_of(e)
    &&& cell(ship.end()) == hi_of(e)
}

/// The ships that the extents stand for are the ships that the grid shows.
proof fn lemma_rebuilt(grid: Seq<Seq<usize>>, exts: Seq<Extent>, ships: Seq<ShipBoundingBox>)
    requires
        extents_track(grid, exts, 0, grid.len() as int),
        ships.len() == exts.len(),
        forall|j: int| 0 <= j < exts.len() ==> extent_is_ship(grid, #[trigger] exts[j]),
        forall|j: int| 0 <= j < exts.len() ==> ship_of_extent(&ships[j], #[trigger] exts[j]),
    ensures
        rebuilt_from(grid, ships),
{
    assert forall|k: int| 0 <= k < ships.len() implies shows_ship(grid, #[trigger] &ships[k]) by {
        assert(extent_is_ship(grid, exts[k]) && ship_of_extent(&ships[k], exts[k]));
    }
    assert forall|col: int, row: int| #[trigger] value_at(grid, col, row) != 0 implies has_ship_id(
        ships,
        value_at(grid, col, row),
    ) by {
        let j = lemma_extent_of(grid, exts, col, row);
        assert(ship_of_extent(&ships[j], exts[j]));
    }
    assert forall|i: int, j: int|
        #![trigger ships[i], ships[j]]
        0 <= i < j < ships.len() implies comes_before(
        ships[i].start().0 as int,
        ships[i].start().1 as int,
        ships[j].start().0 as int,
        ships[j].start().1 as int,
    ) by {
        assert(extent_is_ship(grid, exts[i]) && ship_of_extent(&ships[i], exts[i]));
        assert(extent_is_ship(grid, exts[j]) && ship_of_extent(&ships[j], exts[j]));
        assert(exts[i].id != exts[j].id);
    }
}

/// Two ships that the grid shows under different identifiers occupy no common cell.
pub proof fn lemma_shown_apart(grid: Seq<Seq<usize>>, a: ShipBoundingBox, b: ShipBoundingBox)
    requires
        shows_ship(grid, &a),
        shows_ship(grid, &b),
        a.ship_id() != b.ship_id(),
    ensures
        !a.shares_cell(&b),
{
    if a.shares_cell(&b) {
        let (col, row) = choose|col: int, row: int| #[trigger]
            in_span(cell(a.start()), cell(a.end()), col, row) && in_span(cell(b.start()), cell(b.end()), col, row);
        assert(value_at(grid, col, row) == a.ship_id());
        assert(value_at(grid, col, row) == b.ship_id());
    }
}

/// Ships can be read from the grid for a player with `ships` on the grid
/// of `board`: no cell is malformed, and none is unplaceable.
pub open spec fn grid_sound(grid: Seq<Seq<usize>>, board: &GameData, ships: Seq<ShipBoundingBox>) -> bool {
    &&& forall|col: int, row: int| !#[trigger] malformed_at(grid, col, row)
    &&& forall|col: int, row: int| !#[trigger] unplaceable_at(grid, board, ships, col, row)
}

/// Each of `ships` lies on the grid of `board` with its first and its last cell.
pub open spec fn all_on_grid(board: &GameData, ships: Seq<ShipBoundingBox>) -> bool {
    forall|k: int|
        0 <= k < ships.len() ==> {
            &&& board.on_grid((#[trigger] ships[k]).start().0 as int, ships[k].start().1 as int)
            &&& board.on_grid(ships[k].end().0 as int, ships[k].end().1 as int)
        }
}

/// Reads the ships that `grid` shows and gives them to `player`, behind the
/// ships that the player has, in the order in which their first cells are
/// met when the grid is read row by row.
///
/// Nothing is given to the player unless the whole grid is sound. The
/// cells of each identifier must be exactly one straight segment with as
/// many cells as the identifier says; the first identifier in reading order
/// of which that fails is named by [`LoadError::ShipMalformed`]. Each ship
/// must then lie on the grid of `myboard`, have an identifier that the player
/// does not use, and keep clear of the player's ships; the first in reading
/// order of which that fails is named by [`LoadError::ShipRejected`].
pub fn process_ships(grid: &Vec<Vec<usize>>, player: &mut PlayBoard, myboard: &GameData) -> (r: Result<
    (),
    LoadError,
>)
    requires
        old(player).wf(),
    ensures
        final(player).wf(),
        final(player).name() == old(player).name(),
        final(player).get_playernum() == old(player).get_playernum(),
        match r {
            Ok(_) => {
                &&& grid_sound(grid_view(grid), myboard, old(player).ships())
                &&& old(player).ships().len() <= final(player).ships().len()
                &&& final(player).ships().subrange(0, old(player).ships().len() as int) == old(player).ships()
                &&& rebuilt_from(
                    grid_view(grid),
                    final(player).ships().subrange(
                        old(player).ships().len() as int,
                        final(player).ships().len() as int,
                    ),
                )
                &&& all_on_grid(
                    myboard,
                    final(player).ships().subrange(
                        old(player).ships().len() as int,
                        final(player).ships().len() as int,
                    ),
                )
            },
            Err(e) => {
                &&& final(player).ships() == old(player).ships()
                &&& match e {
                    LoadError::ShipMalformed { ship_id } => first_malformed(grid_view(grid), ship_id),
                    LoadError::ShipRejected { ship_id } => {
                        &&& forall|col: int, row: int| !#[trigger] malformed_at(grid_view(grid), col, row)
                        &&& first_unplaceable(grid_view(grid), myboard, old(player).ships(), ship_id)
                    },
                    _ => false,
                }
            },
        },
{
    let ghost g = grid_view(grid);
    let ghost before = player.ships();
    let exts = find_extents(grid);
    let n: usize = exts.len();

    // Every group must be one straight segment of the right length.
    let mut k: usize = 0;
    while k < n
        invariant
            k <= n == exts@.len(),
            g == grid_view(grid),
            *player == *old(player),
            player.wf(),
            extents_track(g, exts@, 0, g.len() as int),
            forall|j: int| 0 <= j < k ==> extent_is_ship(g, #[trigger] exts@[j]),
            forall|j: int| 0 <= j < k ==> group_ok(g, (#[trigger] exts@[j]).id),
        decreases n - k,
    {
        if !is_ship(grid, &exts[k]) {
            proof {
                lemma_first_malformed(g, exts@, k as int);
            }
            return Err(LoadError::ShipMalformed { ship_id: exts[k].id });
        }
        k += 1;
    }
    proof {
        lemma_none_malformed(g, exts@);
    }
    assert(forall|col: int, row: int| !#[trigger] malformed_at(g, col, row));

    // Every ship must be one that the player can have.
    let mut ships: Vec<ShipBoundingBox> = Vec::new();
    k = 0;
    while k < n
        invariant
            k <= n == exts@.len(),
            g == grid_view(grid),
            *player == *old(player),
            player.wf(),
            player.ships() == before,
            extents_track(g, exts@, 0, g.len() as int),
            forall|j: int| 0 <= j < n ==> extent_is_ship(g, #[trigger] exts@[j]),
            ships@.len() == k,
            forall|j: int| 0 <= j < k ==> ship_of_extent(&ships@[j], #[trigger] exts@[j]),
            forall|j: int|
                0 <= j < k ==> span_admissible(myboard, before, (#[trigger] exts@[j]).id, lo_of(exts@[j]), hi_of(exts@[j])),
        decreases n - k,
    {
        let e = exts[k];
        let direction = direction_of(&e);
        assert(extent_is_ship(g, exts@[k as int]));
        assert(segment_end(e.id, (e.min_col, e.min_row), direction) == hi_of(e));
        match ShipBoundingBox::new(e.id, (e.min_col, e.min_row), direction, myboard, player) {
            Some(ship) => {
                proof {
                    assert(ship_of_extent(&ship, e));
                    assert(placement_error(e.id, (e.min_col, e.min_row), direction, myboard, before) is None);
                    assert forall|i: int| 0 <= i < before.len() implies !spans_meet(
                        cell((#[trigger] before[i]).start()),
                        cell(before[i].end()),
                        lo_of(e),
                        hi_of(e),
                    ) by {
                        assert(!before[i].meets_segment(e.id, (e.min_col, e.min_row), direction));
                    }
                    assert(span_admissible(myboard, before, e.id, lo_of(e), hi_of(e)));
                }
                ships.push(ship);
            },
            None => {
                proof {
                    if hits_segment(before, e.id, (e.min_col, e.min_row), direction) {
                        let i = choose|i: int|
                            0 <= i < before.len() && (#[trigger] before[i]).meets_segment(
                                e.id,
                                (e.min_col, e.min_row),
                                direction,
                            );
                        assert(spans_meet(cell(before[i].start()), cell(before[i].end()), lo_of(e), hi_of(e)));
                    }
                    assert(!span_admissible(myboard, before, e.id, lo_of(e), hi_of(e)));
                    lemma_first_unplaceable(g, myboard, before, exts@, k as int);
                }
                return Err(LoadError::ShipRejected { ship_id: e.id });
            },
        }
        k += 1;
    }

    // Nothing stands in the way: the player gets the ships.
    k = 0;
    while k < n
        invariant
            k <= n == exts@.len(),
            ships@.len() == n,
            g == grid_view(grid),
            player.wf(),
            player.name() == old(player).name(),
            player.get_playernum() == old(player).get_playernum(),
            player.ships() == before + ships@.subrange(0, k as int),
            extents_track(g, exts@, 0, g.len() as int),
            forall|j: int| 0 <= j < n ==> extent_is_ship(g, #[trigger] exts@[j]),
            forall|j: int| 0 <= j < n ==> ship_of_extent(&ships@[j], #[trigger] exts@[j]),
            forall|j: int|
                0 <= j < n ==> span_admissible(myboard, before, (#[trigger] exts@[j]).id, lo_of(exts@[j]), hi_of(exts@[j])),
        decreases n - k,
    {
        let ship = ships[k];
        proof {
            let now = player.ships();
            let e = exts@[k as int];
            assert(ship_of_extent(&ship, e) && extent_is_ship(g, e));
            assert(span_admissible(myboard, before, e.id, lo_of(e), hi_of(e)));
            assert forall|i: int| 0 <= i < now.len() implies (#[trigger] now[i]).ship_id() != ship.ship_id()
                && !now[i].shares_cell(&ship) by {
                if i < before.len() {
                    assert(now[i] == before[i]);
                    assert(!spans_meet(cell(before[i].start()), cell(before[i].end()), lo_of(e), hi_of(e)));
                } else {
                    let j = i - before.len();
                    assert(now[i] == ships@[j]);
                    assert(ship_of_extent(&ships@[j], exts@[j]) && extent_is_ship(g, exts@[j]));
                    assert(exts@[j].id != exts@[k as int].id);
                    lemma_shown_apart(g, ships@[j], ship);
                }
            }
        }
        let added = player.add_ship(ship);
        assert(added);
        proof {
            assert(ships@.subrange(0, k + 1) == ships@.subrange(0, k as int).push(ship));
        }
        k += 1;
    }
    proof {
        let after = player.ships();
        assert(ships@.subrange(0, n as int) == ships@);
        assert(after.subrange(0, before.len() as int) == before);
        assert(after.subrange(before.len() as int, after.len() as int) == ships@);
        lemma_rebuilt(g, exts@, ships@);
        assert forall|col: int, row: int| !#[trigger] unplaceable_at(g, myboard, before, col, row) by {
            if value_at(g, col, row) != 0 {
                let j = lemma_extent_of(g, exts@, col, row);
                assert(extent_tracks(g, exts@[j], 0, g.len() as int));
                lemma_placeable(g, myboard, before, exts@[j], col, row);
            }
        }
        assert forall|j: int| 0 <= j < ships@.len() implies {
            &&& myboard.on_grid((#[trigger] ships@[j]).start().0 as int, ships@[j].start().1 as int)
            &&& myboard.on_grid(ships@[j].end().0 as int, ships@[j].end().1 as int)
        } by {
            assert(ship_of_extent(&ships@[j], exts@[j]));
            assert(span_admissible(myboard, before, exts@[j].id, lo_of(exts@[j]), hi_of(exts@[j])));
        }
    }
    Ok(())
}

} // verus!
