//! Ships, player boards and the game aggregate.
//!
//! A cell is a pair `(column, row)`, both counted from zero. A ship is the
//! closed line segment between its first and its last cell.

use vstd::prelude::*;
use std::collections::HashSet;
use crate::enums::{Direction, PlacementError, RowColErr, MAX_SIZE};

verus! {

/// Whether the cell `(col, row)` lies in the rectangle spanned by `lo` and `hi`,
/// both corners included.
pub open spec fn in_span(lo: (int, int), hi: (int, int), col: int, row: int) -> bool {
    lo.0 <= col <= hi.0 && lo.1 <= row <= hi.1
}

/// Whether two rectangles have a cell in common.
pub open spec fn spans_meet(lo1: (int, int), hi1: (int, int), lo2: (int, int), hi2: (int, int)) -> bool {
    exists|col: int, row: int| #[trigger] in_span(lo1, hi1, col, row) && in_span(lo2, hi2, col, row)
}

/// Two rectangles have a cell in common exactly when neither is empty and
/// their column ranges and their row ranges both intersect.
pub proof fn lemma_spans_meet(lo1: (int, int), hi1: (int, int), lo2: (int, int), hi2: (int, int))
    ensures
        spans_meet(lo1, hi1, lo2, hi2) <==> {
            &&& lo1.0 <= hi1.0 && lo1.1 <= hi1.1
            &&& lo2.0 <= hi2.0 && lo2.1 <= hi2.1
            &&& lo1.0 <= hi2.0 && lo2.0 <= hi1.0
            &&& lo1.1 <= hi2.1 && lo2.1 <= hi1.1
        },
{
    if lo1.0 <= hi1.0 && lo1.1 <= hi1.1 && lo2.0 <= hi2.0 && lo2.1 <= hi2.1 && lo1.0 <= hi2.0
        && lo2.0 <= hi1.0 && lo1.1 <= hi2.1 && lo2.1 <= hi1.1 {
        let col = if lo1.0 <= lo2.0 { lo2.0 } else { lo1.0 };
        let row = if lo1.1 <= lo2.1 { lo2.1 } else { lo1.1 };
        assert(in_span(lo1, hi1, col, row) && in_span(lo2, hi2, col, row));
    }
}

/// The last cell of a ship of `length` cells that starts at `start` and
/// extends in `direction`. For a length of zero it lies before `start`, so
/// that the segment holds no cell.
pub open spec fn segment_end(length: usize, start: (usize, usize), direction: Direction) -> (int, int) {
    match direction {
        Direction::Horizontal => (start.0 + length - 1, start.1 as int),
        Direction::Vertical => (start.0 as int, start.1 + length - 1),
    }
}

/// The first cell of a segment as a pair of mathematical integers.
pub open spec fn cell(point: (usize, usize)) -> (int, int) {
    (point.0 as int, point.1 as int)
}

/// One ship, held as the first and last cell of its line segment.
///
/// A ship is made by [`ShipBoundingBox::new`] or [`ShipBoundingBox::place`]
/// only and never changes. Its identifier is the number of its cells.
#[derive(Clone, Copy, Debug, PartialEq, Eq)]
pub struct ShipBoundingBox {
    ship_id: usize,
    start: (usize, usize),
    end: (usize, usize),
}

impl ShipBoundingBox {
    /// The identifier, in contracts: what [`ShipBoundingBox::ship_id`] returns.
    pub closed spec fn spec_ship_id(&self) -> usize {
        self.ship_id
    }

    /// The first cell, in contracts: what [`ShipBoundingBox::start`] returns.
    pub closed spec fn spec_start(&self) -> (usize, usize) {
        self.start
    }

    /// The last cell, in contracts: what [`ShipBoundingBox::end`] returns.
    pub closed spec fn spec_end(&self) -> (usize, usize) {
        self.end
    }

    /// The segment runs from `start` towards higher columns or higher rows,
    /// never both, and has as many cells as the identifier says.
    #[verifier::type_invariant]
    pub open spec fn wf(&self) -> bool {
        &&& self.start().0 <= self.end().0
        &&& self.start().1 <= self.end().1
        &&& (self.is_vertical() || self.is_horizontal())
        &&& self.length() == self.ship_id()
    }

    /// The segment lies in one row. A ship of one cell is horizontal and vertical.
    pub open spec fn is_horizontal(&self) -> bool {
        self.start().1 == self.end().1
    }

    /// The segment lies in one column.
    pub open spec fn is_vertical(&self) -> bool {
        self.start().0 == self.end().0
    }

    /// Number of cells of the segment.
    pub open spec fn length(&self) -> int {
        (self.end().0 - self.start().0) + (self.end().1 - self.start().1) + 1
    }

    /// Whether the ship occupies the cell `(col, row)`.
    pub open spec fn covers(&self, col: int, row: int) -> bool {
        in_span(cell(self.start()), cell(self.end()), col, row)
    }

    /// Whether the two ships occupy a common cell.
    pub open spec fn shares_cell(&self, other: &ShipBoundingBox) -> bool {
        spans_meet(cell(self.start()), cell(self.end()), cell(other.start()), cell(other.end()))
    }

    /// Whether the ship occupies a cell of the segment of `length` cells that
    /// starts at `start` and extends in `direction`.
    pub open spec fn meets_segment(&self, length: usize, start: (usize, usize), direction: Direction) -> bool {
        spans_meet(cell(self.start()), cell(self.end()), cell(start), segment_end(length, start, direction))
    }

    /// The ship has `length` as its identifier and is the segment of `length`
    /// cells that starts at `start` and extends in `direction`.
    pub open spec fn is_placed(&self, length: usize, start: (usize, usize), direction: Direction) -> bool {
        &&& self.ship_id() == length
        &&& self.start() == start
        &&& cell(self.end()) == segment_end(length, start, direction)
    }

    /// The ship's identifier.
    #[verifier::when_used_as_spec(spec_ship_id)]
    pub fn ship_id(&self) -> (r: usize)
        ensures
            r == self.ship_id(),
    {
        self.ship_id
    }

    /// The first cell, as `(column, row)`.
    #[verifier::when_used_as_spec(spec_start)]
    pub fn start(&self) -> (r: (usize, usize))
        ensures
            r == self.start(),
    {
        self.start
    }

    /// The last cell, as `(column, row)`.
    #[verifier::when_used_as_spec(spec_end)]
    pub fn end(&self) -> (r: (usize, usize))
        ensures
            r == self.end(),
    {
        self.end
    }

    /// Makes the ship of `ship_id` cells that starts at `start` and extends in
    /// `direction`, if `player` can have it on the grid of `board`; the
    /// identifier is the length. Nothing is added to `player`.
    ///
    /// The ship is refused when [`placement_error`] names a reason.
    pub fn new(
        ship_id: usize,
        start: (usize, usize),
        direction: Direction,
        board: &GameData,
        player: &PlayBoard,
    ) -> (r: Option<ShipBoundingBox>)
        requires
            player.wf(),
        ensures
            r is Some <==> placement_error(ship_id, start, direction, board, player.ships()) is None,
            r matches Some(ship) ==> ship.is_placed(ship_id, start, direction),
    {
        match ShipBoundingBox::place(ship_id, start, direction, board, player) {
            Ok(ship) => Some(ship),
            Err(_) => None,
        }
    }

    /// As [`ShipBoundingBox::new`], and says why a ship is refused. The
    /// checks are made in this order: the ship has a cell and lies on the
    /// grid, it is straight, its identifier is free, it keeps clear of the
    /// player's ships. A ship that is made here is always straight, so that
    /// [`PlacementError::Diagonal`] is never given.
    pub fn place(
        ship_id: usize,
        start: (usize, usize),
        direction: Direction,
        board: &GameData,
        player: &PlayBoard,
    ) -> (r: Result<ShipBoundingBox, PlacementError>)
        requires
            player.wf(),
        ensures
            match r {
                Ok(ship) => {
                    &&& placement_error(ship_id, start, direction, board, player.ships()) is None
                    &&& ship.is_placed(ship_id, start, direction)
                },
                Err(e) => placement_error(ship_id, start, direction, board, player.ships()) == Some(e),
            },
    {
        if ship_id == 0 {
            return Err(PlacementError::OutOfBounds);
        }
        let reach: usize = ship_id - 1;
        let far = match direction {
            Direction::Horizontal => (start.0.checked_add(reach), Some(start.1)),
            Direction::Vertical => (Some(start.0), start.1.checked_add(reach)),
        };
        let end: (usize, usize) = match far {
            (Some(col), Some(row)) => (col, row),
            _ => {
                return Err(PlacementError::OutOfBounds);
            },
        };
        if !board.in_bounds(start.0, start.1) || !board.in_bounds(end.0, end.1) {
            return Err(PlacementError::OutOfBounds);
        }
        if start.0 != end.0 && start.1 != end.1 {
            return Err(PlacementError::Diagonal);
        }
        if player.player_has_ship_id(ship_id) {
            return Err(PlacementError::DuplicateId);
        }
        let ship = ShipBoundingBox { ship_id, start, end };
        if player.overlaps_any(&ship) {
            return Err(PlacementError::Overlap);
        }
        Ok(ship)
    }

    /// Whether a segment of `ship2_size` cells from `ship2_point` in direction
    /// `ship2_dir` would occupy a cell of this ship. Nothing is built for the
    /// candidate, and a candidate of no cells meets nothing.
    pub fn overlap_possible(&self, ship2_size: usize, ship2_point: (usize, usize), ship2_dir: &Direction) -> (r: bool)
        ensures
            r == self.meets_segment(ship2_size, ship2_point, *ship2_dir),
    {
        proof {
            use_type_invariant(self);
            lemma_spans_meet(
                cell(self.start()),
                cell(self.end()),
                cell(ship2_point),
                segment_end(ship2_size, ship2_point, *ship2_dir),
            );
        }
        if ship2_size == 0 {
            return false;
        }
        let self_horizontal = self.start.1 == self.end.1;
        let ship2_horizontal = match ship2_dir {
            Direction::Horizontal => true,
            Direction::Vertical => false,
        };
        if self_horizontal && ship2_horizontal {
            // Same row, and the column ranges intersect.
            return self.start.1 == ship2_point.1 && below_end(self.start.0, ship2_point.0, ship2_size)
                && ship2_point.0 <= self.end.0;
        }
        if !self_horizontal && !ship2_horizontal {
            // Same column, and the row ranges intersect.
            return self.start.0 == ship2_point.0 && below_end(self.start.1, ship2_point.1, ship2_size)
                && ship2_point.1 <= self.end.1;
        }
        if self_horizontal {
            // The candidate is vertical: its column within this ship's columns,
            // this ship's row within the candidate's rows.
            self.start.0 <= ship2_point.0 && ship2_point.0 <= self.end.0 && ship2_point.1 <= self.start.1
                && below_end(self.start.1, ship2_point.1, ship2_size)
        } else {
            // The candidate is horizontal: this ship's column within its columns,
            // its row within this ship's rows.
            ship2_point.0 <= self.start.0 && below_end(self.start.0, ship2_point.0, ship2_size)
                && self.start.1 <= ship2_point.1 && ship2_point.1 <= self.end.1
        }
    }

    /// Whether the two ships occupy a common cell.
    pub fn overlaps(&self, ship2: &ShipBoundingBox) -> (r: bool)
        ensures
            r == self.shares_cell(ship2),
    {
        proof {
            use_type_invariant(self);
            use_type_invariant(ship2);
            lemma_spans_meet(cell(self.start()), cell(self.end()), cell(ship2.start()), cell(ship2.end()));
        }
        let self_horizontal = self.start.1 == self.end.1;
        let ship2_horizontal = ship2.start.1 == ship2.end.1;

        if self_horizontal && ship2_horizontal {
            // Same row, and the column ranges intersect.
            return self.start.1 == ship2.start.1 && self.start.0 <= ship2.end.0 && ship2.start.0 <= self.end.0;
        }
        if !self_horizontal && !ship2_horizontal {
            // Same column, and the row ranges intersect.
            return self.start.0 == ship2.start.0 && self.start.1 <= ship2.end.1 && ship2.start.1 <= self.end.1;
        }
        let (horiz_ship, vert_ship) = if self_horizontal {
            (self, ship2)
        } else {
            (ship2, self)
        };
        // The vertical ship's column within the horizontal ship's columns,
        // the horizontal ship's row within the vertical ship's rows.
        horiz_ship.start.0 <= vert_ship.start.0 && vert_ship.start.0 <= horiz_ship.end.0 && vert_ship.start.1
            <= horiz_ship.start.1 && horiz_ship.start.1 <= vert_ship.end.1
    }

    /// Whether the segment from `other_start` to `other_end` begins in one of
    /// this ship's rows and reaches one of its columns. For a horizontal
    /// segment that is: whether it occupies a cell of this ship.
    pub fn points_collision(&self, other_start: (usize, usize), other_end: (usize, usize)) -> (r: bool)
        ensures
            r == {
                &&& self.start().1 <= other_start.1 <= self.end().1
                &&& self.start().0 <= other_end.0
                &&& other_start.0 <= self.end().0
            },
    {
        (self.start.1 <= other_start.1 && self.end.1 >= other_start.1) && (self.start.0 <= other_end.0
            && self.end.0 >= other_start.0)
    }

    /// Whether the ship occupies the cell in row `row` and column `col`.
    pub fn point_in_ship(&self, row: usize, col: usize) -> (r: bool)
        ensures
            r == self.covers(col as int, row as int),
    {
        proof {
            use_type_invariant(self);
        }
        if self.start.0 == self.end.0 {
            (col == self.start.0) && (row >= self.start.1) && (row <= self.end.1)
        } else {
            (row == self.start.1) && (col >= self.start.0) && (col <= self.end.0)
        }
    }
}

/// Whether `x` lies before the end of the run of `len` positions that starts
/// at `lo`, computed without forming `lo + len`.
fn below_end(x: usize, lo: usize, len: usize) -> (r: bool)
    ensures
        r == (x < lo + len),
{
    x < lo || x - lo < len
}

/// For ships that lie in one row, or in one column, sharing a cell is the
/// same as the column ranges and the row ranges both intersecting.
pub proof fn lemma_shares_cell(a: ShipBoundingBox, b: ShipBoundingBox)
    requires
        a.wf(),
        b.wf(),
    ensures
        a.shares_cell(&b) <==> {
            &&& a.start().0 <= b.end().0 && b.start().0 <= a.end().0
            &&& a.start().1 <= b.end().1 && b.start().1 <= a.end().1
        },
{
    lemma_spans_meet(cell(a.start()), cell(a.end()), cell(b.start()), cell(b.end()));
}

/// Two ships with the same identifier, first cell and last cell are the same ship.
pub proof fn lemma_same_ship(a: ShipBoundingBox, b: ShipBoundingBox)
    requires
        a.ship_id() == b.ship_id(),
        a.start() == b.start(),
        a.end() == b.end(),
    ensures
        a == b,
{
}

/// Whether two ships share a cell does not depend on which of the two is asked.
pub proof fn lemma_overlaps_symmetric(a: ShipBoundingBox, b: ShipBoundingBox)
    ensures
        a.shares_cell(&b) == b.shares_cell(&a),
{
    lemma_spans_meet(cell(a.start()), cell(a.end()), cell(b.start()), cell(b.end()));
    lemma_spans_meet(cell(b.start()), cell(b.end()), cell(a.start()), cell(a.end()));
}

/// The ships of one player are sound when each is a line segment, no two
/// carry the same identifier, and no two occupy a common cell.
pub open spec fn ships_valid(ships: Seq<ShipBoundingBox>) -> bool {
    &&& forall|i: int| 0 <= i < ships.len() ==> (#[trigger] ships[i]).wf()
    &&& forall|i: int, j: int|
        #![trigger ships[i], ships[j]]
        0 <= i < j < ships.len() ==> ships[i].ship_id() != ships[j].ship_id()
    &&& forall|i: int, j: int|
        #![trigger ships[i], ships[j]]
        0 <= i < j < ships.len() ==> !ships[i].shares_cell(&ships[j])
}

/// Whether one of `ships` carries the identifier `id`.
pub open spec fn has_ship_id(ships: Seq<ShipBoundingBox>, id: usize) -> bool {
    exists|i: int| 0 <= i < ships.len() && (#[trigger] ships[i]).ship_id() == id
}

/// Whether one of `ships` occupies a cell of `ship`.
pub open spec fn hits_ship(ships: Seq<ShipBoundingBox>, ship: &ShipBoundingBox) -> bool {
    exists|i: int| 0 <= i < ships.len() && (#[trigger] ships[i]).shares_cell(ship)
}

/// Whether a player with `ships` takes `ship`: its identifier is not in use,
/// and it occupies no cell of one of `ships`.
pub open spec fn admits(ships: Seq<ShipBoundingBox>, ship: &ShipBoundingBox) -> bool {
    !has_ship_id(ships, ship.ship_id()) && !hits_ship(ships, ship)
}

/// The ships of a player with `ships` who has been offered `ship`.
pub open spec fn with_ship(ships: Seq<ShipBoundingBox>, ship: &ShipBoundingBox) -> Seq<ShipBoundingBox> {
    if admits(ships, ship) {
        ships.push(*ship)
    } else {
        ships
    }
}

/// Whether one of `ships` occupies a cell of the segment of `length` cells
/// that starts at `start` and extends in `direction`.
pub open spec fn hits_segment(
    ships: Seq<ShipBoundingBox>,
    length: usize,
    start: (usize, usize),
    direction: Direction,
) -> bool {
    exists|i: int| 0 <= i < ships.len() && (#[trigger] ships[i]).meets_segment(length, start, direction)
}

/// Why a player with `ships` cannot have, on the grid of `board`, the ship of
/// `length` cells that starts at `start` and extends in `direction`; `None`
/// where the player can have it. The first reason that holds is given: the
/// ship does not fit the grid, its identifier (which is its length) is in
/// use, it would occupy a cell of another ship.
pub open spec fn placement_error(
    length: usize,
    start: (usize, usize),
    direction: Direction,
    board: &GameData,
    ships: Seq<ShipBoundingBox>,
) -> Option<PlacementError> {
    if !board.fits(length, start, direction) {
        Some(PlacementError::OutOfBounds)
    } else if has_ship_id(ships, length) {
        Some(PlacementError::DuplicateId)
    } else if hits_segment(ships, length, start, direction) {
        Some(PlacementError::Overlap)
    } else {
        None
    }
}

/// Whether `i` is the first of `ships` that occupies the cell `(col, row)`.
pub open spec fn first_cover(ships: Seq<ShipBoundingBox>, i: int, col: int, row: int) -> bool {
    &&& 0 <= i < ships.len()
    &&& ships[i].covers(col, row)
    &&& forall|j: int| 0 <= j < i ==> !(#[trigger] ships[j]).covers(col, row)
}

/// What a player's board holds, as plain values.
pub struct PlayerView {
    pub name: Seq<char>,
    pub num: usize,
    pub ships: Seq<ShipBoundingBox>,
    /// The identifiers that count as in use.
    pub ids: Set<usize>,
}

/// The board of one player: a name, a number, and the ships placed so far.
///
/// The set of identifiers in use is kept beside the ships and changes only
/// together with them.
pub struct PlayBoard {
    playername: String,
    playernum: usize,
    ships: Vec<ShipBoundingBox>,
    ship_ids: HashSet<usize>,
}

impl View for PlayBoard {
    type V = PlayerView;

    open spec fn view(&self) -> PlayerView {
        PlayerView { name: self.name(), num: self.get_playernum(), ships: self.ships(), ids: self.ids() }
    }
}

impl PlayBoard {
    /// The player's name.
    pub closed spec fn name(&self) -> Seq<char> {
        self.playername@
    }

    /// The player's number, in contracts: what [`PlayBoard::get_playernum`] returns.
    pub closed spec fn spec_playernum(&self) -> usize {
        self.playernum
    }

    /// The ships, in the order in which they were added.
    pub closed spec fn ships(&self) -> Seq<ShipBoundingBox> {
        self.ships@
    }

    /// The identifiers that count as in use.
    pub closed spec fn ids(&self) -> Set<usize> {
        self.ship_ids@
    }

    /// The identifier set holds exactly the identifiers of the ships.
    pub open spec fn ids_in_step(&self) -> bool {
        forall|id: usize| self.ids().contains(id) <==> has_ship_id(self.ships(), id)
    }

    /// The ships are sound and the identifier set is in step with them.
    pub open spec fn wf(&self) -> bool {
        ships_valid(self.ships()) && self.ids_in_step()
    }

    pub fn get_playername(&self) -> (r: &String)
        ensures
            r@ == self.name(),
    {
        &self.playername
    }

    pub fn set_playername(&mut self, name: String)
        ensures
            final(self)@ == (PlayerView { name: name@, ..old(self)@ }),
            final(self).wf() == old(self).wf(),
    {
        self.playername = name;
    }

    #[verifier::when_used_as_spec(spec_playernum)]
    pub fn get_playernum(&self) -> (r: usize)
        ensures
            r == self.get_playernum(),
    {
        self.playernum
    }

    pub fn set_playernum(&mut self, num: usize)
        ensures
            final(self)@ == (PlayerView { num, ..old(self)@ }),
            final(self).wf() == old(self).wf(),
    {
        self.playernum = num;
    }

    /// The largest identifier among the ships, if there is a ship.
    pub fn get_largest_ship_id(&self) -> (r: Option<usize>)
        ensures
            self.ships().len() == 0 <==> r is None,
            r matches Some(largest) ==> {
                &&& has_ship_id(self.ships(), largest)
                &&& forall|i: int| 0 <= i < self.ships().len() ==> (#[trigger] self.ships()[i]).ship_id() <= largest
            },
    {
        let mut best: Option<usize> = None;
        let n: usize = self.ships.len();
        let mut i: usize = 0;
        while i < n
            invariant
                i <= n == self.ships@.len(),
                i == 0 <==> best is None,
                best matches Some(largest) ==> {
                    &&& exists|k: int| 0 <= k < i && (#[trigger] self.ships@[k]).ship_id() == largest
                    &&& forall|k: int| 0 <= k < i ==> (#[trigger] self.ships@[k]).ship_id() <= largest
                },
            decreases n - i,
        {
            let id: usize = self.ships[i].ship_id;
            best = match best {
                Some(largest) if largest >= id => Some(largest),
                _ => Some(id),
            };
            i += 1;
        }
        best
    }

    /// Whether one of the ships carries `new_ship_id`.
    pub fn player_has_ship_id(&self, new_ship_id: usize) -> (r: bool)
        requires
            self.wf(),
        ensures
            r == has_ship_id(self.ships(), new_ship_id),
    {
        broadcast use vstd::std_specs::hash::group_hash_axioms;

        self.ship_ids.contains(&new_ship_id)
    }

    /// Whether one of the ships occupies a cell of `ship`.
    pub fn overlaps_any(&self, ship: &ShipBoundingBox) -> (r: bool)
        ensures
            r == hits_ship(self.ships(), ship),
    {
        let n: usize = self.ships.len();
        let mut i: usize = 0;
        while i < n
            invariant
                i <= n == self.ships@.len(),
                forall|k: int| 0 <= k < i ==> !(#[trigger] self.ships@[k]).shares_cell(ship),
            decreases n - i,
        {
            if self.ships[i].overlaps(ship) {
                return true;
            }
            i += 1;
        }
        false
    }

    /// Adds `new_ship` behind the other ships, unless its identifier is in
    /// use or it occupies a cell of one of them. Says whether it was added.
    pub fn add_ship(&mut self, new_ship: ShipBoundingBox) -> (r: bool)
        requires
            old(self).wf(),
        ensures
            final(self).wf(),
            final(self).name() == old(self).name(),
            final(self).get_playernum() == old(self).get_playernum(),
            r == admits(old(self).ships(), &new_ship),
            final(self).ships() == with_ship(old(self).ships(), &new_ship),
    {
        broadcast use vstd::std_specs::hash::group_hash_axioms;

        if self.player_has_ship_id(new_ship.ship_id) {
            return false;
        }
        if self.overlaps_any(&new_ship) {
            return false;
        }
        proof {
            use_type_invariant(&new_ship);
            let before = self.ships@;
            let after = before.push(new_ship);
            assert forall|i: int, j: int|
                #![trigger after[i], after[j]]
                0 <= i < j < after.len() implies !after[i].shares_cell(&after[j]) by {
                if j == before.len() {
                    lemma_overlaps_symmetric(before[i], new_ship);
                }
            }
            assert forall|id: usize| has_ship_id(after, id) <==> (id == new_ship.ship_id() || has_ship_id(
                before,
                id,
            )) by {
                if has_ship_id(after, id) {
                    let k = choose|k: int| 0 <= k < after.len() && (#[trigger] after[k]).ship_id() == id;
                    if k < before.len() {
                        assert(before[k].ship_id() == id);
                    }
                }
                if has_ship_id(before, id) {
                    let k = choose|k: int| 0 <= k < before.len() && (#[trigger] before[k]).ship_id() == id;
                    assert(after[k].ship_id() == id);
                }
                if id == new_ship.ship_id() {
                    assert(after[before.len() as int].ship_id() == id);
                }
            }
        }
        self.ships.push(new_ship);
        self.ship_ids.insert(new_ship.ship_id);
        true
    }

    /// The ships, in the order in which they were added.
    pub fn return_ships(&self) -> (r: &Vec<ShipBoundingBox>)
        ensures
            r@ == self.ships(),
    {
        &self.ships
    }

    /// Whether a ship of `ship_size` cells from `start` in `direction` would
    /// occupy a cell of one of the ships.
    pub fn check_collision(&self, start: (usize, usize), ship_size: usize, direction: Direction) -> (r: bool)
        ensures
            r == hits_segment(self.ships(), ship_size, start, direction),
    {
        let n: usize = self.ships.len();
        let mut i: usize = 0;
        while i < n
            invariant
                i <= n == self.ships@.len(),
                forall|k: int| 0 <= k < i ==> !(#[trigger] self.ships@[k]).meets_segment(ship_size, start, direction),
            decreases n - i,
        {
            if self.ships[i].overlap_possible(ship_size, start, &direction) {
                return true;
            }
            i += 1;
        }
        false
    }

    /// The identifier of the first ship that occupies the cell in row `row`
    /// and column `col`: a hit. `None` is a miss.
    pub fn handle_shot(&self, row: usize, col: usize) -> (r: Option<usize>)
        ensures
            match r {
                Some(id) => exists|i: int| #[trigger]
                    first_cover(self.ships(), i, col as int, row as int) && self.ships()[i].ship_id() == id,
                None => forall|i: int|
                    0 <= i < self.ships().len() ==> !(#[trigger] self.ships()[i]).covers(col as int, row as int),
            },
    {
        let n: usize = self.ships.len();
        let mut i: usize = 0;
        while i < n
            invariant
                i <= n == self.ships@.len(),
                forall|k: int| 0 <= k < i ==> !(#[trigger] self.ships@[k]).covers(col as int, row as int),
            decreases n - i,
        {
            if self.ships[i].point_in_ship(row, col) {
                assert(first_cover(self.ships(), i as int, col as int, row as int));
                return Some(self.ships[i].ship_id);
            }
            i += 1;
        }
        None
    }

    /// Takes the first ship off the board, with its identifier.
    pub fn remove_first_ship(&mut self) -> (r: Option<ShipBoundingBox>)
        requires
            old(self).wf(),
        ensures
            final(self).wf(),
            final(self).name() == old(self).name(),
            final(self).get_playernum() == old(self).get_playernum(),
            match r {
                Some(ship) => {
                    &&& old(self).ships().len() > 0
                    &&& ship == old(self).ships()[0]
                    &&& final(self).ships() == old(self).ships().subrange(1, old(self).ships().len() as int)
                },
                None => old(self).ships().len() == 0 && final(self).ships() == old(self).ships(),
            },
    {
        broadcast use vstd::std_specs::hash::group_hash_axioms;

        if self.ships.len() == 0 {
            return None;
        }
        let ghost before = self.ships@;
        let ship = self.ships.remove(0);
        self.ship_ids.remove(&ship.ship_id);
        proof {
            let after = self.ships@;
            assert(after == before.subrange(1, before.len() as int));
            assert forall|i: int| 0 <= i < after.len() implies (#[trigger] after[i]) == before[i + 1] by {}
            assert forall|id: usize| has_ship_id(after, id) <==> (id != ship.ship_id() && has_ship_id(
                before,
                id,
            )) by {
                if has_ship_id(after, id) {
                    let k = choose|k: int| 0 <= k < after.len() && (#[trigger] after[k]).ship_id() == id;
                    assert(before[k + 1].ship_id() == id);
                    assert(before[0].ship_id() != before[k + 1].ship_id());
                }
                if id != ship.ship_id() && has_ship_id(before, id) {
                    let k = choose|k: int| 0 <= k < before.len() && (#[trigger] before[k]).ship_id() == id;
                    assert(after[k - 1].ship_id() == id);
                }
            }
            assert forall|i: int, j: int|
                #![trigger after[i], after[j]]
                0 <= i < j < after.len() implies after[i].ship_id() != after[j].ship_id() && !after[i].shares_cell(
                &after[j],
            ) by {
                assert(before[i + 1].ship_id() != before[j + 1].ship_id());
                assert(!before[i + 1].shares_cell(&before[j + 1]));
            }
        }
        Some(ship)
    }
}

impl Default for PlayBoard {
    /// A board with no name, number zero and no ship.
    fn default() -> (r: Self)
        ensures
            r.wf(),
            r.name() == Seq::<char>::empty(),
            r.get_playernum() == 0,
            r.ships() == Seq::<ShipBoundingBox>::empty(),
    {
        Self { playername: String::new(), playernum: 0, ships: Vec::new(), ship_ids: HashSet::new() }
    }
}

/// What a game holds, as plain values.
pub struct GameView {
    pub rows: usize,
    pub cols: usize,
    pub player_count: usize,
    pub loaded: bool,
    pub interactive: bool,
    pub filename: Seq<char>,
    pub smallestship: usize,
    pub largestship: usize,
    pub boards: Seq<PlayBoard>,
}

/// The game: the grid's dimensions, the range of ship sizes, the number of
/// players announced, and the boards that have been made so far.
pub struct GameData {
    rows: usize,
    cols: usize,
    player_count: usize,
    loaded: bool,
    interactive: bool,
    filename: String,
    smallestship: usize,
    largestship: usize,
    boards: Vec<PlayBoard>,
}

impl View for GameData {
    type V = GameView;

    closed spec fn view(&self) -> GameView {
        GameView {
            rows: self.rows,
            cols: self.cols,
            player_count: self.player_count,
            loaded: self.loaded,
            interactive: self.interactive,
            filename: self.filename@,
            smallestship: self.smallestship,
            largestship: self.largestship,
            boards: self.boards@,
        }
    }
}

/// Text of the error for a smallest ship size below two.
pub open spec fn smallest_ship_message() -> Seq<char> {
    "Error: Smallest ship size must be greater than 1"@
}

/// Text of the error for a largest ship size below two or below the smallest.
pub open spec fn largest_ship_message() -> Seq<char> {
    "Error: Largest ship size must be at least as large as the smallest ship size and greater than 1"@
}

/// Text of the error for taking a player from none.
pub open spec fn no_players_message() -> Seq<char> {
    "Error: Dropped below 0 players."@
}

/// Why `num` cannot be a grid dimension, if it cannot.
pub open spec fn dimension_error(num: usize) -> Option<RowColErr> {
    if num == 0 {
        Some(RowColErr::TooSmall)
    } else if num > MAX_SIZE {
        Some(RowColErr::TooBig)
    } else {
        None
    }
}

/// The largest ship size that goes with a new smallest size `small`: the one
/// given, or else the larger of the current largest size and `small`.
pub open spec fn chosen_largest(current: usize, small: usize, large: Option<usize>) -> usize {
    match large {
        Some(l) => l,
        None => if current >= small {
            current
        } else {
            small
        },
    }
}

impl GameData {
    /// Dimensions are between 1 and [`MAX_SIZE`], ship sizes start at two,
    /// the largest is not below the smallest, and every board is sound.
    pub open spec fn wf(&self) -> bool {
        &&& 1 <= self@.rows <= MAX_SIZE
        &&& 1 <= self@.cols <= MAX_SIZE
        &&& 2 <= self@.smallestship <= self@.largestship
        &&& forall|i: int| 0 <= i < self@.boards.len() ==> (#[trigger] self@.boards[i]).wf()
    }

    /// Whether the cell `(col, row)` lies on the grid.
    pub open spec fn on_grid(&self, col: int, row: int) -> bool {
        0 <= row < self@.rows && 0 <= col < self@.cols
    }

    /// Whether a ship of `length` cells from `start` in `direction` has at
    /// least one cell and lies on the grid with its first and its last cell.
    pub open spec fn fits(&self, length: usize, start: (usize, usize), direction: Direction) -> bool {
        &&& length >= 1
        &&& self.on_grid(start.0 as int, start.1 as int)
        &&& self.on_grid(segment_end(length, start, direction).0, segment_end(length, start, direction).1)
    }

    pub fn set_interactive(&mut self, state: bool)
        ensures
            old(self).wf() ==> final(self).wf(),
            final(self)@ == (GameView { interactive: state, ..old(self)@ }),
    {
        self.interactive = state;
    }

    pub fn get_interactive(&self) -> (r: bool)
        ensures
            r == self@.interactive,
    {
        self.interactive
    }

    pub fn get_loaded(&self) -> (r: bool)
        ensures
            r == self@.loaded,
    {
        self.loaded
    }

    pub fn set_loaded(&mut self, state: bool)
        ensures
            old(self).wf() ==> final(self).wf(),
            final(self)@ == (GameView { loaded: state, ..old(self)@ }),
    {
        self.loaded = state;
    }

    pub fn get_filename(&self) -> (r: String)
        ensures
            r@ == self@.filename,
    {
        self.filename.clone()
    }

    pub fn set_filename(&mut self, name: String)
        ensures
            old(self).wf() ==> final(self).wf(),
            final(self)@ == (GameView { filename: name@, ..old(self)@ }),
    {
        self.filename = name;
    }

    /// The smallest and the largest ship size.
    pub fn get_shipsizes(&self) -> (r: (usize, usize))
        ensures
            r == (self@.smallestship, self@.largestship),
    {
        (self.smallestship, self.largestship)
    }

    /// Sets the range of ship sizes. Without `large`, the largest size stays
    /// unless `small` is above it. A smallest size below two is refused, and
    /// so is a largest size below two or below the smallest.
    pub fn set_shipsizes(&mut self, small: usize, large: Option<usize>) -> (r: Result<(), &'static str>)
        ensures
            old(self).wf() ==> final(self).wf(),
            match r {
                Ok(_) => {
                    &&& 2 <= small <= chosen_largest(old(self)@.largestship, small, large)
                    &&& final(self)@ == (GameView {
                        smallestship: small,
                        largestship: chosen_largest(old(self)@.largestship, small, large),
                        ..old(self)@
                    })
                },
                Err(msg) => {
                    &&& final(self)@ == old(self)@
                    &&& if small <= 1 {
                        msg@ == smallest_ship_message()
                    } else {
                        &&& chosen_largest(old(self)@.largestship, small, large) < small
                        &&& msg@ == largest_ship_message()
                    }
                },
            },
    {
        if small <= 1 {
            return Err("Error: Smallest ship size must be greater than 1");
        }
        let large_val: usize = match large {
            Some(l) => l,
            None => if self.largestship >= small {
                self.largestship
            } else {
                small
            },
        };
        if large_val <= 1 || large_val < small {
            return Err(
                "Error: Largest ship size must be at least as large as the smallest ship size and greater than 1",
            );
        }
        self.smallestship = small;
        self.largestship = large_val;
        Ok(())
    }

    /// The number of columns and the number of rows, in this order.
    pub fn get_col_row(&self) -> (r: (usize, usize))
        ensures
            r == (self@.cols, self@.rows),
    {
        (self.cols, self.rows)
    }

    /// Sets both dimensions, or neither: a dimension of zero or above
    /// [`MAX_SIZE`] is refused, the number of columns being looked at first.
    pub fn set_col_row(&mut self, col: usize, row: usize) -> (r: Result<(), RowColErr>)
        ensures
            old(self).wf() ==> final(self).wf(),
            match r {
                Ok(_) => {
                    &&& dimension_error(col) is None
                    &&& dimension_error(row) is None
                    &&& final(self)@ == (GameView { rows: row, cols: col, ..old(self)@ })
                },
                Err(e) => {
                    &&& final(self)@ == old(self)@
                    &&& if dimension_error(col) is Some {
                        dimension_error(col) == Some(e)
                    } else {
                        dimension_error(row) == Some(e)
                    }
                },
            },
    {
        match check_dimension(col) {
            Some(e) => {
                return Err(e);
            },
            None => {},
        }
        match check_dimension(row) {
            Some(e) => {
                return Err(e);
            },
            None => {},
        }
        self.rows = row;
        self.cols = col;
        Ok(())
    }

    /// Sets the number of rows where `row_col` is true, else the number of
    /// columns. A number of zero or above [`MAX_SIZE`] is refused.
    pub fn set_row_or_col(&mut self, num: usize, row_col: bool) -> (r: Result<(), RowColErr>)
        ensures
            old(self).wf() ==> final(self).wf(),
            match r {
                Ok(_) => {
                    &&& dimension_error(num) is None
                    &&& final(self)@ == if row_col {
                        GameView { rows: num, ..old(self)@ }
                    } else {
                        GameView { cols: num, ..old(self)@ }
                    }
                },
                Err(e) => final(self)@ == old(self)@ && dimension_error(num) == Some(e),
            },
    {
        match check_dimension(num) {
            Some(e) => {
                return Err(e);
            },
            None => {},
        }
        if row_col {
            self.rows = num;
        } else {
            self.cols = num;
        }
        Ok(())
    }

    pub fn get_playercount(&self) -> (r: usize)
        ensures
            r == self@.player_count,
    {
        self.player_count
    }

    pub fn set_playercount(&mut self, num: usize)
        ensures
            old(self).wf() ==> final(self).wf(),
            final(self)@ == (GameView { player_count: num, ..old(self)@ }),
    {
        self.player_count = num;
    }

    /// Adds one to the number of players, which must be below the limit of
    /// the machine word.
    pub fn increment_playercount(&mut self)
        requires
            old(self)@.player_count < usize::MAX,
        ensures
            old(self).wf() ==> final(self).wf(),
            final(self)@ == (GameView { player_count: (old(self)@.player_count + 1) as usize, ..old(self)@ }),
    {
        self.player_count += 1;
    }

    /// Takes one from the number of players, unless there is none.
    pub fn decrement_playercount(&mut self) -> (r: Result<(), &'static str>)
        ensures
            old(self).wf() ==> final(self).wf(),
            match r {
                Ok(_) => {
                    &&& old(self)@.player_count > 0
                    &&& final(self)@ == (GameView {
                        player_count: (old(self)@.player_count - 1) as usize,
                        ..old(self)@
                    })
                },
                Err(msg) => {
                    &&& old(self)@.player_count == 0
                    &&& final(self)@ == old(self)@
                    &&& msg@ == no_players_message()
                },
            },
    {
        if self.player_count == 0 {
            return Err("Error: Dropped below 0 players.");
        }
        self.player_count -= 1;
        Ok(())
    }

    pub fn get_boards_len(&self) -> (r: usize)
        ensures
            r == self@.boards.len(),
    {
        self.boards.len()
    }

    /// Puts `board` behind the other boards.
    pub fn boards_add(&mut self, board: PlayBoard)
        ensures
            old(self).wf() && board.wf() ==> final(self).wf(),
            final(self)@ == (GameView { boards: old(self)@.boards.push(board), ..old(self)@ }),
    {
        self.boards.push(board);
    }

    /// The board that was added last.
    pub fn boards_get_last(&self) -> (r: Option<&PlayBoard>)
        ensures
            self.wf() ==> (r matches Some(board) ==> board.wf()),
            match r {
                Some(board) => self@.boards.len() > 0 && *board == self@.boards.last(),
                None => self@.boards.len() == 0,
            },
    {
        let n: usize = self.boards.len();
        if n == 0 {
            return None;
        }
        Some(&self.boards[n - 1])
    }

    /// Takes the last board out of the game.
    pub fn boards_pop_last(&mut self) -> (r: Option<PlayBoard>)
        ensures
            old(self).wf() ==> final(self).wf(),
            old(self).wf() ==> (r matches Some(board) ==> board.wf()),
            match r {
                Some(board) => {
                    &&& old(self)@.boards.len() > 0
                    &&& board == old(self)@.boards.last()
                    &&& final(self)@ == (GameView { boards: old(self)@.boards.drop_last(), ..old(self)@ })
                },
                None => old(self)@.boards.len() == 0 && final(self)@ == old(self)@,
            },
    {
        self.boards.pop()
    }

    /// The board at position `playernum` among the boards, counted from zero.
    /// The number that a board carries is not looked at.
    pub fn boards_get_player(&self, playernum: usize) -> (r: Option<&PlayBoard>)
        ensures
            self.wf() ==> (r matches Some(board) ==> board.wf()),
            match r {
                Some(board) => playernum < self@.boards.len() && *board == self@.boards[playernum as int],
                None => playernum >= self@.boards.len(),
            },
    {
        if playernum >= self.boards.len() {
            return None;
        }
        Some(&self.boards[playernum])
    }

    /// Whether the cell in column `col` and row `row` lies on the grid.
    pub fn in_bounds(&self, col: usize, row: usize) -> (r: bool)
        ensures
            r == self.on_grid(col as int, row as int),
    {
        row < self.rows && col < self.cols
    }

    /// Takes the first board out of the game.
    pub fn remove_first_board(&mut self) -> (r: Option<PlayBoard>)
        ensures
            old(self).wf() ==> final(self).wf(),
            old(self).wf() ==> (r matches Some(board) ==> board.wf()),
            match r {
                Some(board) => {
                    &&& old(self)@.boards.len() > 0
                    &&& board == old(self)@.boards[0]
                    &&& final(self)@ == (GameView {
                        boards: old(self)@.boards.subrange(1, old(self)@.boards.len() as int),
                        ..old(self)@
                    })
                },
                None => old(self)@.boards.len() == 0 && final(self)@ == old(self)@,
            },
    {
        if self.boards.len() == 0 {
            return None;
        }
        Some(self.boards.remove(0))
    }
}

/// Why `num` cannot be a grid dimension, if it cannot.
fn check_dimension(num: usize) -> (r: Option<RowColErr>)
    ensures
        r == dimension_error(num),
{
    if num == 0 {
        Some(RowColErr::TooSmall)
    } else if num > MAX_SIZE {
        Some(RowColErr::TooBig)
    } else {
        None
    }
}

/// The game that a new game starts as.
pub open spec fn default_game() -> GameView {
    GameView {
        rows: 10,
        cols: 10,
        player_count: 1,
        loaded: false,
        interactive: false,
        filename: Seq::<char>::empty(),
        smallestship: 2,
        largestship: 5,
        boards: Seq::<PlayBoard>::empty(),
    }
}

impl Default for GameData {
    /// A grid of ten rows and ten columns, one player announced, ship sizes
    /// from two to five, no board, no file name, nothing loaded.
    fn default() -> (r: Self)
        ensures
            r.wf(),
            r@ == default_game(),
    {
        Self {
            rows: 10,
            cols: 10,
            player_count: 1,
            loaded: false,
            interactive: false,
            filename: String::new(),
            smallestship: 2,
            largestship: 5,
            boards: Vec::new(),
        }
    }
}

} // verus!
