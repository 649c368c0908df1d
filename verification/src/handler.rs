//! The commands that build a game: dimensions, ship sizes, players, and
//! the placing of ships, by hand or at random.
//!
//! A command changes the game and says what is to be told to the user by
//! adding to a list of notices; nothing is printed here.

use vstd::prelude::*;
use vstd::string::*;
use std::collections::HashMap;
use crate::board::{
    chosen_largest, default_game, has_ship_id, hits_segment, placement_error, smallest_ship_message, GameData,
    GameView, PlayBoard, ShipBoundingBox,
};
use crate::enums::{Direction, QueryError, RowColErr, StateCreate, MAX_SIZE};
use crate::file::lines_view;
use crate::rebuild::all_on_grid;
use crate::utils::{
    column_index, decimal_digits, digit_chars, fields, is_digit, is_space, is_upper, is_whitespace, lemma_kept,
    letters_and_digits, letters_value, parse_size, parse_to_usize, pick_random, query_of, random_index,
    size_of_text, split, string_of, then_number, to_chars, to_upper, translate_upper, upper_letters, uppercased,
    views, with_number, with_text,
};

verus! {

/// What a command has to tell the user.
#[derive(Debug, PartialEq, Eq)]
pub enum Notice {
    /// A dimension is no size; `is_col` tells whether it was given as the
    /// number of columns.
    RowCol { err: RowColErr, is_col: bool },
    /// The commands that there are.
    Help,
    /// The command to create a game came without a path.
    MissingCreatePath,
    /// Ship sizes were given before a game was created.
    ShipsWithoutCreate,
    /// A ship size is no size.
    ShipsValue(RowColErr),
    /// The game refuses the ship sizes, with these words.
    ShipSizesRefused(String),
    /// A player was given before a game was created.
    PlayerWithoutCreate,
    /// A command stands where a player's name was expected.
    CommandForPlayerName(String),
    /// A player was given without a name.
    EmptyPlayerName,
    /// Ships were to be placed before a player was given.
    NoPlayerUnderCreation,
    /// No ship of this size can be placed on the board any more.
    NoSpaceForShip(usize),
    /// A ship of this size was placed with its first cell in this column and row.
    ShipAdded { size: usize, col: usize, row: usize },
    /// A ship was to be placed before a game was created and a player given.
    PlaceWithoutPlayer,
    /// A command stands where the placement of a ship was expected.
    NoShipStatus,
    /// The placement of a ship holds no colon.
    BadPlacementFormat,
    /// The placement of a ship has not its three fields.
    InvalidShipFormat,
    /// The size of the ship lies outside the range of ship sizes.
    ShipSizeOutOfRange,
    /// The size of the ship is no size.
    InvalidShipSize,
    /// The cell of the ship is no coordinate.
    Query(QueryError),
    /// The cell of the ship holds more than letters, digits and white space.
    InvalidShipEntry,
    /// The row of the ship is no size.
    InvalidRowNumber,
    /// The direction of the ship is neither `V` nor `H`.
    InvalidDirection,
    /// The game has no player to place the ship for.
    NoPlayerAvailable,
    /// The player cannot have the ship.
    ShipNotCreated,
    /// The random placing gave up before every ship was placed.
    PlacementGaveUp,
}

/// Whether the step `step` has been taken.
pub fn has_state(mystate: &Vec<StateCreate>, step: StateCreate) -> (r: bool)
    ensures
        r == mystate@.contains(step),
{
    let n: usize = mystate.len();
    let mut i: usize = 0;
    while i < n
        invariant
            i <= n == mystate@.len(),
            forall|j: int| 0 <= j < i ==> mystate@[j] != step,
        decreases n - i,
    {
        if mystate[i] == step {
            return true;
        }
        i += 1;
    }
    false
}

/// Whether a ship of `size` cells from `origin` in `direction` lies on the
/// grid of `board` and keeps clear of `ships`.
pub open spec fn free_at(
    board: &GameData,
    ships: Seq<ShipBoundingBox>,
    size: usize,
    origin: (usize, usize),
    direction: Direction,
) -> bool {
    board.fits(size, origin, direction) && !hits_segment(ships, size, origin, direction)
}

/// The directions in which a ship of `size` cells from `origin` is free:
/// horizontal first, then vertical.
pub open spec fn free_directions(
    board: &GameData,
    ships: Seq<ShipBoundingBox>,
    size: usize,
    origin: (usize, usize),
) -> Seq<Direction> {
    let across = if free_at(board, ships, size, origin, Direction::Horizontal) {
        seq![Direction::Horizontal]
    } else {
        Seq::<Direction>::empty()
    };
    let down = if free_at(board, ships, size, origin, Direction::Vertical) {
        seq![Direction::Vertical]
    } else {
        Seq::<Direction>::empty()
    };
    across + down
}

/// Whether the cell `(col, row)` of the grid of `board` is one from which a
/// ship of `size` cells is free in some direction.
pub open spec fn is_opening(board: &GameData, ships: Seq<ShipBoundingBox>, size: usize, col: int, row: int) -> bool {
    &&& board.on_grid(col, row)
    &&& free_directions(board, ships, size, (col as usize, row as usize)).len() > 0
}

/// No ship of `size` cells can be placed on the grid of `board` clear of `ships`.
pub open spec fn no_room(board: &GameData, ships: Seq<ShipBoundingBox>, size: usize) -> bool {
    forall|col: int, row: int| !#[trigger] is_opening(board, ships, size, col, row)
}

/// The cell that has the number `key` where the cells of the grid of
/// `board` are counted in reading order, from zero: `(column, row)`.
pub open spec fn key_cell(board: &GameData, key: usize) -> (usize, usize) {
    ((key % board@.cols) as usize, (key / board@.cols) as usize)
}

/// Whether `key` is the number of a cell of the grid of `board` from which
/// a ship of `size` cells is free in some direction.
pub open spec fn is_opening_key(board: &GameData, ships: Seq<ShipBoundingBox>, size: usize, key: usize) -> bool {
    &&& key < board@.rows * board@.cols
    &&& is_opening(board, ships, size, key_cell(board, key).0 as int, key_cell(board, key).1 as int)
}

/// `found` holds the openings for a ship of `size` cells on the grid of
/// `board`: the number of each cell from which such a ship is free, with
/// the directions in which it is.
pub open spec fn all_openings(
    board: &GameData,
    ships: Seq<ShipBoundingBox>,
    size: usize,
    found: Map<usize, Vec<Direction>>,
) -> bool {
    &&& forall|key: usize|
        #![trigger found.dom().contains(key)]
        #![trigger is_opening_key(board, ships, size, key)]
        found.dom().contains(key) <==> is_opening_key(board, ships, size, key)
    &&& forall|key: usize|
        found.dom().contains(key) ==> (#[trigger] found[key])@ == free_directions(
            board,
            ships,
            size,
            key_cell(board, key),
        )
}

/// The cell `(col, row)` of a grid of `cols` columns and `rows` rows, both
/// at most [`MAX_SIZE`], has the number `row * cols + col`, which fits the
/// machine word and gives the cell back.
pub proof fn lemma_cell_key(cols: int, rows: int, col: int, row: int)
    requires
        0 <= col < cols <= MAX_SIZE,
        0 <= row < rows <= MAX_SIZE,
    ensures
        0 <= row * cols + col < rows * cols <= usize::MAX,
        (row * cols + col) % cols == col,
        (row * cols + col) / cols == row,
        (row + 1) * cols == row * cols + cols,
{
    assert((row + 1) * cols == row * cols + cols) by (nonlinear_arith);
    assert((row + 1) * cols <= rows * cols) by (nonlinear_arith)
        requires
            row + 1 <= rows,
            0 <= cols,
    ;
    assert(0 <= row * cols) by (nonlinear_arith)
        requires
            0 <= row,
            0 <= cols,
    ;
    assert(rows * cols <= 32767 * 32767) by (nonlinear_arith)
        requires
            0 <= rows <= 32767,
            0 <= cols <= 32767,
    ;
    vstd::arithmetic::div_mod::lemma_fundamental_div_mod_converse(row * cols + col, cols, row, col);
}

/// The cell that has the number `key`.
pub fn cell_of_key(myboard: &GameData, key: usize) -> (r: (usize, usize))
    requires
        myboard.wf(),
    ensures
        r == key_cell(myboard, key),
{
    let (cols, _rows) = myboard.get_col_row();
    (key % cols, key / cols)
}

/// The cells of the grid from which a ship of `ship_size` cells can be
/// placed clear of the player's ships, each under its number in reading
/// order and with the directions in which the ship can be placed:
/// horizontal first, then vertical.
pub fn find_valid_positions(myboard: &GameData, player: &PlayBoard, ship_size: usize) -> (found: HashMap<
    usize,
    Vec<Direction>,
>)
    requires
        myboard.wf(),
    ensures
        all_openings(myboard, player.ships(), ship_size, found@),
{
    broadcast use vstd::std_specs::hash::group_hash_axioms;

    let ghost ships = player.ships();
    let (cols, rows) = myboard.get_col_row();
    let mut valid_positions: HashMap<usize, Vec<Direction>> = HashMap::new();
    let mut key: usize = 0;
    let mut row: usize = 0;
    proof {
        lemma_cell_key(cols as int, rows as int, 0, 0);
    }
    while row < rows
        invariant
            myboard.wf(),
            row <= rows == myboard@.rows,
            cols == myboard@.cols,
            ships == player.ships(),
            key == row * cols,
            key <= rows * cols <= usize::MAX,
            forall|k: usize|
                #![trigger valid_positions@.dom().contains(k)]
                #![trigger is_opening_key(myboard, ships, ship_size, k)]
                valid_positions@.dom().contains(k) <==> k < key && is_opening_key(myboard, ships, ship_size, k),
            forall|k: usize|
                valid_positions@.dom().contains(k) ==> (#[trigger] valid_positions@[k])@ == free_directions(
                    myboard,
                    ships,
                    ship_size,
                    key_cell(myboard, k),
                ),
        decreases rows - row,
    {
        let mut col: usize = 0;
        while col < cols
            invariant
                myboard.wf(),
                row < rows == myboard@.rows,
                col <= cols == myboard@.cols,
                ships == player.ships(),
                key == row * cols + col,
                key <= rows * cols <= usize::MAX,
                forall|k: usize|
                    #![trigger valid_positions@.dom().contains(k)]
                    #![trigger is_opening_key(myboard, ships, ship_size, k)]
                    valid_positions@.dom().contains(k) <==> k < key && is_opening_key(myboard, ships, ship_size, k),
                forall|k: usize|
                    valid_positions@.dom().contains(k) ==> (#[trigger] valid_positions@[k])@ == free_directions(
                        myboard,
                        ships,
                        ship_size,
                        key_cell(myboard, k),
                    ),
            decreases cols - col,
        {
            proof {
                lemma_cell_key(cols as int, rows as int, col as int, row as int);
            }
            assert(key_cell(myboard, key) == (col, row));
            let mut directions: Vec<Direction> = Vec::new();
            if ship_size >= 1 && ship_size <= cols - col && !player.check_collision(
                (col, row),
                ship_size,
                Direction::Horizontal,
            ) {
                directions.push(Direction::Horizontal);
            }
            if ship_size >= 1 && ship_size <= rows - row && !player.check_collision(
                (col, row),
                ship_size,
                Direction::Vertical,
            ) {
                directions.push(Direction::Vertical);
            }
            assert(directions@ == free_directions(myboard, ships, ship_size, (col, row)));
            assert(is_opening_key(myboard, ships, ship_size, key) == (directions@.len() > 0));
            if directions.len() > 0 {
                valid_positions.insert(key, directions);
            }
            key += 1;
            col += 1;
        }
        proof {
            lemma_cell_key(cols as int, rows as int, 0, row as int);
        }
        row += 1;
    }
    valid_positions
}

/// The keys of `found`, in the order in which the map gives them.
pub fn opening_keys(found: &HashMap<usize, Vec<Direction>>) -> (keys: Vec<usize>)
    ensures
        forall|k: usize| keys@.contains(k) <==> found@.dom().contains(k),
{
    broadcast use vstd::std_specs::hash::group_hash_axioms;

    let mut keys: Vec<usize> = Vec::new();
    for k in it: found.keys()
        invariant
            it.seq().unref().to_set() == found@.dom(),
            keys@ == it.seq().unref().take(it.index() as int),
            forall|k: usize| keys@.contains(k) ==> found@.dom().contains(k),
            it.index() == it.seq().len() ==> forall|k: usize| found@.dom().contains(k) ==> keys@.contains(k),
    {
        let ghost before = keys@;
        keys.push(*k);
        assert(it.seq().unref()[it.index() as int] == *k);
        assert(it.seq().unref().to_set().contains(*k));
        assert forall|x: usize| keys@.contains(x) implies found@.dom().contains(x) by {
            let j = choose|j: int| 0 <= j < keys@.len() && keys@[j] == x;
            if j < before.len() {
                assert(before[j] == x);
                assert(before.contains(x));
            }
        }
        assert(it.index() + 1 == it.seq().len() ==> keys@ =~= it.seq().unref());
        assert forall|x: usize| it.index() + 1 == it.seq().len() && found@.dom().contains(x) implies keys@.contains(
            x,
        ) by {
            assert(it.seq().unref().to_set().contains(x));
        }
    }
    keys
}

/// Picks at random one of the openings that `found` holds for a ship of
/// `ship_size` cells, and one of the directions that are free there. There
/// is none to pick exactly where there is no room for such a ship.
pub fn pick_opening(
    myboard: &GameData,
    player: &PlayBoard,
    ship_size: usize,
    found: &HashMap<usize, Vec<Direction>>,
) -> (r: Option<((usize, usize), Direction)>)
    requires
        myboard.wf(),
        all_openings(myboard, player.ships(), ship_size, found@),
    ensures
        r is None <==> no_room(myboard, player.ships(), ship_size),
        r matches Some(picked) ==> free_at(myboard, player.ships(), ship_size, picked.0, picked.1),
{
    broadcast use vstd::std_specs::hash::group_hash_axioms;

    let ghost ships = player.ships();
    let valid_keys = opening_keys(found);
    if valid_keys.len() == 0 {
        proof {
            assert forall|col: int, row: int| !#[trigger] is_opening(myboard, ships, ship_size, col, row) by {
                if is_opening(myboard, ships, ship_size, col, row) {
                    lemma_cell_key(myboard@.cols as int, myboard@.rows as int, col, row);
                    let key = (row * myboard@.cols + col) as usize;
                    assert(key_cell(myboard, key) == (col as usize, row as usize));
                    assert(is_opening_key(myboard, ships, ship_size, key));
                    assert(found@.dom().contains(key));
                    assert(valid_keys@.contains(key));
                }
            }
        }
        return None;
    }
    match pick_random(valid_keys.as_slice()) {
        Some(key) => {
            assert(valid_keys@.contains(*key));
            assert(found@.dom().contains(*key));
            assert(is_opening_key(myboard, ships, ship_size, *key));
            match found.get(key) {
                Some(directions) => {
                    let origin = cell_of_key(myboard, *key);
                    match pick_random(directions.as_slice()) {
                        Some(dir) => {
                            proof {
                                let d = choose|d: int| 0 <= d < directions@.len() && directions@[d] == *dir;
                                assert(is_opening(myboard, ships, ship_size, origin.0 as int, origin.1 as int));
                            }
                            Some((origin, *dir))
                        },
                        None => {
                            assert(false);
                            None
                        },
                    }
                },
                None => {
                    assert(false);
                    None
                },
            }
        },
        None => {
            assert(false);
            None
        },
    }
}

/// Places the ship of `ship_size` cells from `origin` in `direction` on
/// the player's board, if the player can have it, and notes that it was added.
pub fn place_chosen(
    myboard: &GameData,
    player: &mut PlayBoard,
    ship_size: usize,
    origin: (usize, usize),
    direction: Direction,
    out: &mut Vec<Notice>,
) -> (r: bool)
    requires
        old(player).wf(),
    ensures
        final(player).wf(),
        final(player).name() == old(player).name(),
        final(player).get_playernum() == old(player).get_playernum(),
        r == (placement_error(ship_size, origin, direction, myboard, old(player).ships()) is None),
        r ==> {
            &&& final(player).ships().len() == old(player).ships().len() + 1
            &&& final(player).ships().drop_last() == old(player).ships()
            &&& final(player).ships().last().is_placed(ship_size, origin, direction)
            &&& final(out)@ == old(out)@.push(Notice::ShipAdded { size: ship_size, col: origin.0, row: origin.1 })
        },
        !r ==> final(player).ships() == old(player).ships() && final(out)@ == old(out)@,
{
    match ShipBoundingBox::new(ship_size, origin, direction, myboard, player) {
        Some(ship) => {
            proof {
                let ships = player.ships();
                assert forall|i: int| 0 <= i < ships.len() implies !(#[trigger] ships[i]).shares_cell(&ship) by {
                    assert(!ships[i].meets_segment(ship_size, origin, direction));
                }
            }
            out.push(Notice::ShipAdded { size: ship_size, col: origin.0, row: origin.1 });
            let added = player.add_ship(ship);
            assert(added);
            assert(player.ships().drop_last() == old(player).ships());
            true
        },
        None => false,
    }
}

/// Whether the notices hold the warning that no ship of `size` cells can be placed.
pub open spec fn warned(notes: Seq<Notice>, size: usize) -> bool {
    notes.contains(Notice::NoSpaceForShip(size))
}

/// The size that a notice of the random layout is about; zero for other notices.
pub open spec fn note_size(notice: Notice) -> int {
    match notice {
        Notice::NoSpaceForShip(size) => size as int,
        Notice::ShipAdded { size, col, row } => size as int,
        _ => 0,
    }
}

/// What the random layout has done to a player with the ships `before`:
/// `after` are the player's ships and `notes` the notices.
///
/// The ships that were there are there, in their places. Each ship that
/// was added lies on the grid and has a size from `small` to `large`, and
/// the larger ships were added first. For each of these sizes there is a
/// warning or the player has a ship of that size. There is a warning for
/// each size for which there was no room from the start, and a warning for
/// a size says that there is no room for it now. Each notice is a warning
/// or tells of a ship that was added, and the notices come in the order of
/// falling sizes.
pub open spec fn layout_done(
    board: &GameData,
    before: Seq<ShipBoundingBox>,
    after: Seq<ShipBoundingBox>,
    notes: Seq<Notice>,
    small: int,
    large: int,
) -> bool {
    &&& before.len() <= after.len()
    &&& after.subrange(0, before.len() as int) == before
    &&& all_on_grid(board, after.subrange(before.len() as int, after.len() as int))
    &&& forall|k: int| before.len() <= k < after.len() ==> small <= (#[trigger] after[k]).ship_id() <= large
    &&& forall|i: int, j: int|
        #![trigger after[i], after[j]]
        before.len() <= i < j < after.len() ==> after[i].ship_id() > after[j].ship_id()
    &&& forall|size: usize| small <= size <= large && no_room(board, before, size) ==> #[trigger] warned(notes, size)
    &&& forall|size: usize| small <= size <= large && #[trigger] warned(notes, size) ==> no_room(board, after, size)
    &&& forall|size: usize| small <= size <= large ==> #[trigger] warned(notes, size) || has_ship_id(after, size)
    &&& forall|i: int|
        0 <= i < notes.len() ==> match #[trigger] notes[i] {
            Notice::NoSpaceForShip(size) => small <= size <= large,
            Notice::ShipAdded { size, col, row } => {
                &&& small <= size <= large
                &&& exists|k: int|
                    before.len() <= k < after.len() && (#[trigger] after[k]).ship_id() == size && after[k].start() == (
                        col,
                        row,
                    )
            },
            _ => false,
        }
    &&& forall|i: int, j: int|
        #![trigger notes[i], notes[j]]
        0 <= i < j < notes.len() ==> note_size(notes[i]) > note_size(notes[j])
}

/// Where there is no room for a ship, there is none once ships are added.
pub proof fn lemma_no_room_stays(
    board: &GameData,
    before: Seq<ShipBoundingBox>,
    after: Seq<ShipBoundingBox>,
    size: usize,
)
    requires
        before.len() <= after.len(),
        after.subrange(0, before.len() as int) == before,
        no_room(board, before, size),
    ensures
        no_room(board, after, size),
{
    assert forall|col: int, row: int| !#[trigger] is_opening(board, after, size, col, row) by {
        assert(!is_opening(board, before, size, col, row));
        if board.on_grid(col, row) {
            let origin = (col as usize, row as usize);
            lemma_hits_stay(before, after, size, origin, Direction::Horizontal);
            lemma_hits_stay(before, after, size, origin, Direction::Vertical);
        }
    }
}

/// A segment that hits one of the ships hits one of them once ships are added.
proof fn lemma_hits_stay(
    before: Seq<ShipBoundingBox>,
    after: Seq<ShipBoundingBox>,
    size: usize,
    origin: (usize, usize),
    direction: Direction,
)
    requires
        before.len() <= after.len(),
        after.subrange(0, before.len() as int) == before,
    ensures
        hits_segment(before, size, origin, direction) ==> hits_segment(after, size, origin, direction),
        forall|id: usize| has_ship_id(before, id) ==> has_ship_id(after, id),
{
    if hits_segment(before, size, origin, direction) {
        let i = choose|i: int| 0 <= i < before.len() && (#[trigger] before[i]).meets_segment(size, origin, direction);
        assert(after[i] == before[i]);
    }
    assert forall|id: usize| has_ship_id(before, id) implies has_ship_id(after, id) by {
        let i = choose|i: int| 0 <= i < before.len() && (#[trigger] before[i]).ship_id() == id;
        assert(after[i] == before[i]);
    }
}

/// What is said of a layout for a game holds for every game with the same
/// numbers of rows and columns.
pub proof fn lemma_layout_same_board(
    a: &GameData,
    b: &GameData,
    before: Seq<ShipBoundingBox>,
    after: Seq<ShipBoundingBox>,
    notes: Seq<Notice>,
    small: int,
    large: int,
)
    requires
        a@.rows == b@.rows,
        a@.cols == b@.cols,
        layout_done(a, before, after, notes, small, large),
    ensures
        layout_done(b, before, after, notes, small, large),
{
    assert forall|ships: Seq<ShipBoundingBox>, size: usize|
        #![trigger no_room(a, ships, size)]
        #![trigger no_room(b, ships, size)]
        no_room(a, ships, size) == no_room(b, ships, size) by {
        assert forall|col: int, row: int|
            #![trigger is_opening(a, ships, size, col, row)]
            #![trigger is_opening(b, ships, size, col, row)]
            is_opening(a, ships, size, col, row) == is_opening(b, ships, size, col, row) by {}
    }
    let added = after.subrange(before.len() as int, after.len() as int);
    assert(all_on_grid(b, added)) by {
        assert forall|k: int| 0 <= k < added.len() implies {
            &&& b.on_grid((#[trigger] added[k]).start().0 as int, added[k].start().1 as int)
            &&& b.on_grid(added[k].end().0 as int, added[k].end().1 as int)
        } by {
            assert(a.on_grid(added[k].start().0 as int, added[k].start().1 as int));
        }
    }
}

/// A ship that is longer than the grid is wide and high has no room on it.
pub proof fn lemma_too_long_no_room(board: &GameData, ships: Seq<ShipBoundingBox>, size: usize)
    requires
        size > board@.cols,
        size > board@.rows,
    ensures
        no_room(board, ships, size),
{
    assert forall|col: int, row: int| !#[trigger] is_opening(board, ships, size, col, row) by {}
}

/// A random layout on a grid that is too small for one of the ship sizes
/// gives a warning.
pub proof fn lemma_small_grid_warns(
    board: &GameData,
    before: Seq<ShipBoundingBox>,
    after: Seq<ShipBoundingBox>,
    notes: Seq<Notice>,
    small: int,
    large: int,
    size: usize,
)
    requires
        layout_done(board, before, after, notes, small, large),
        small <= size <= large,
        size > board@.cols,
        size > board@.rows,
    ensures
        warned(notes, size),
        notes.len() >= 1,
{
    lemma_too_long_no_room(board, before, size);
    assert(warned(notes, size));
    assert(notes.contains(Notice::NoSpaceForShip(size)));
}

/// Places ships at random on the board of the player who was added last:
/// one ship of each size from the largest to the smallest. For each size
/// the cells from which such a ship can be placed are gathered; where there
/// is none, a warning is noted and the size passed over; else one of these
/// cells and one of its free directions are picked at random, and the ship
/// is placed unless the player has a ship with that identifier.
///
/// Nothing is done, and `false` returned, where no player has been given
/// or the game has no board.
pub fn handle_random(myboard: &mut GameData, mystate: &mut Vec<StateCreate>, out: &mut Vec<Notice>) -> (r: bool)
    requires
        old(myboard).wf(),
    ensures
        final(myboard).wf(),
        final(mystate)@ == old(mystate)@,
        r == (old(mystate)@.contains(StateCreate::StatePlayer) && old(myboard)@.boards.len() > 0),
        !r ==> final(myboard)@ == old(myboard)@,
        !old(mystate)@.contains(StateCreate::StatePlayer) ==> final(out)@ == old(out)@.push(
            Notice::NoPlayerUnderCreation,
        ),
        old(mystate)@.contains(StateCreate::StatePlayer) && !r ==> final(out)@ == old(out)@,
        r ==> {
            &&& final(myboard)@ == (GameView { boards: final(myboard)@.boards, ..old(myboard)@ })
            &&& final(myboard)@.boards.len() == old(myboard)@.boards.len()
            &&& final(myboard)@.boards.drop_last() == old(myboard)@.boards.drop_last()
            &&& final(myboard)@.boards.last().name() == old(myboard)@.boards.last().name()
            &&& final(myboard)@.boards.last().get_playernum() == old(myboard)@.boards.last().get_playernum()
            &&& old(out)@.len() <= final(out)@.len()
            &&& final(out)@.subrange(0, old(out)@.len() as int) == old(out)@
            &&& layout_done(
                &*old(myboard),
                old(myboard)@.boards.last().ships(),
                final(myboard)@.boards.last().ships(),
                final(out)@.subrange(old(out)@.len() as int, final(out)@.len() as int),
                old(myboard)@.smallestship as int,
                old(myboard)@.largestship as int,
            )
        },
{
    if !has_state(mystate, StateCreate::StatePlayer) {
        out.push(Notice::NoPlayerUnderCreation);
        return false;
    }
    let (small, large) = myboard.get_shipsizes();
    let ghost start_out = out@;
    match myboard.boards_pop_last() {
        None => false,
        Some(popped) => {
            let mut myplayer = popped;
            let ghost before = myplayer.ships();
            assert(out@.subrange(start_out.len() as int, out@.len() as int) == Seq::<Notice>::empty());
            assert(myplayer.ships().subrange(0, before.len() as int) == before);
            let mut ship_size: usize = large;
            // Largest ships first.
            loop
                invariant_except_break
                    small <= ship_size <= large,
                    layout_done(
                        &*myboard,
                        before,
                        myplayer.ships(),
                        out@.subrange(start_out.len() as int, out@.len() as int),
                        ship_size + 1,
                        large as int,
                    ),
                invariant
                    2 <= small <= large,
                    old(myboard)@.boards.len() > 0,
                    large == old(myboard)@.largestship,
                    small == old(myboard)@.smallestship,
                    myboard@ == (GameView { boards: old(myboard)@.boards.drop_last(), ..old(myboard)@ }),
                    myboard.wf(),
                    myplayer.wf(),
                    myplayer.name() == old(myboard)@.boards.last().name(),
                    myplayer.get_playernum() == old(myboard)@.boards.last().get_playernum(),
                    before == old(myboard)@.boards.last().ships(),
                    start_out == old(out)@,
                    start_out.len() <= out@.len(),
                    out@.subrange(0, start_out.len() as int) == start_out,
                ensures
                    layout_done(
                        &*myboard,
                        before,
                        myplayer.ships(),
                        out@.subrange(start_out.len() as int, out@.len() as int),
                        small as int,
                        large as int,
                    ),
                decreases ship_size - small,
            {
                let ghost ships_then = myplayer.ships();
                let ghost out_then = out@;
                let ghost notes_then = out@.subrange(start_out.len() as int, out@.len() as int);
                let valid_positions = find_valid_positions(myboard, &myplayer, ship_size);
                match pick_opening(myboard, &myplayer, ship_size, &valid_positions) {
                    None => {
                        out.push(Notice::NoSpaceForShip(ship_size));
                        assert(out@.subrange(start_out.len() as int, out@.len() as int) == notes_then.push(
                            Notice::NoSpaceForShip(ship_size),
                        ));
                    },
                    Some((origin, dir)) => {
                        assert(!no_room(&*myboard, ships_then, ship_size));
                        let placed = place_chosen(myboard, &mut myplayer, ship_size, origin, dir, out);
                        proof {
                            if !placed {
                                assert(has_ship_id(ships_then, ship_size));
                                assert(out@.subrange(start_out.len() as int, out@.len() as int) == notes_then);
                            } else {
                                let now = myplayer.ships();
                                let ship = now[now.len() - 1];
                                assert(ship.is_placed(ship_size, origin, dir));
                                assert(myboard.fits(ship_size, origin, dir));
                                assert(out@.subrange(start_out.len() as int, out@.len() as int) == notes_then.push(
                                    Notice::ShipAdded { size: ship_size, col: origin.0, row: origin.1 },
                                ));
                            }
                        }
                    },
                }
                proof {
                    lemma_layout_step(
                        &*myboard,
                        before,
                        ships_then,
                        myplayer.ships(),
                        notes_then,
                        out@.subrange(start_out.len() as int, out@.len() as int),
                        ship_size,
                        large as int,
                    );
                }
                if ship_size == small {
                    break;
                }
                ship_size -= 1;
            }
            proof {
                lemma_layout_same_board(
                    &*myboard,
                    &*old(myboard),
                    before,
                    myplayer.ships(),
                    out@.subrange(start_out.len() as int, out@.len() as int),
                    small as int,
                    large as int,
                );
            }
            myboard.boards_add(myplayer);
            proof {
                let old_boards = old(myboard)@.boards;
                assert(myboard@.boards.drop_last() == old_boards.drop_last());
            }
            true
        },
    }
}

/// One more size has been dealt with: the player's ships went from
/// `then` to `now`, the notices from `notes_then` to `notes_now`.
pub open spec fn layout_step(
    board: &GameData,
    then: Seq<ShipBoundingBox>,
    now: Seq<ShipBoundingBox>,
    notes_then: Seq<Notice>,
    notes_now: Seq<Notice>,
    size: usize,
) -> bool {
    ||| {
        &&& no_room(board, then, size)
        &&& now == then
        &&& notes_now == notes_then.push(Notice::NoSpaceForShip(size))
    }
    ||| {
        &&& !no_room(board, then, size)
        &&& has_ship_id(then, size)
        &&& now == then
        &&& notes_now == notes_then
    }
    ||| {
        &&& !no_room(board, then, size)
        &&& now.len() == then.len() + 1
        &&& now.drop_last() == then
        &&& now.last().ship_id() == size
        &&& board.on_grid(now.last().start().0 as int, now.last().start().1 as int)
        &&& board.on_grid(now.last().end().0 as int, now.last().end().1 as int)
        &&& notes_now == notes_then.push(
            Notice::ShipAdded { size, col: now.last().start().0, row: now.last().start().1 },
        )
    }
}

/// What holds of the sizes above `size` holds of `size` too once it has
/// been dealt with.
pub proof fn lemma_layout_step(
    board: &GameData,
    before: Seq<ShipBoundingBox>,
    then: Seq<ShipBoundingBox>,
    now: Seq<ShipBoundingBox>,
    notes_then: Seq<Notice>,
    notes_now: Seq<Notice>,
    size: usize,
    large: int,
)
    requires
        size <= large,
        layout_done(board, before, then, notes_then, size + 1, large),
        layout_step(board, then, now, notes_then, notes_now, size),
    ensures
        layout_done(board, before, now, notes_now, size as int, large),
{
    let bl = before.len() as int;
    // The ships that were there are there.
    assert(now.subrange(0, then.len() as int) =~= then);
    assert forall|i: int| 0 <= i < then.len() implies now[i] == then[i] by {
        assert(now.subrange(0, then.len() as int)[i] == now[i]);
    }
    assert(now.subrange(0, bl) =~= before) by {
        assert forall|i: int| 0 <= i < bl implies now[i] == before[i] by {
            assert(then.subrange(0, bl)[i] == then[i]);
        }
    }
    // So are the notices.
    assert forall|i: int| 0 <= i < notes_then.len() implies notes_now[i] == notes_then[i] by {}
    lemma_hits_stay(before, then, size, (0, 0), Direction::Horizontal);
    lemma_hits_stay(then, now, size, (0, 0), Direction::Horizontal);
    let added_then = then.subrange(bl, then.len() as int);
    let added_now = now.subrange(bl, now.len() as int);
    assert(all_on_grid(board, added_now)) by {
        assert forall|k: int| 0 <= k < added_now.len() implies {
            &&& board.on_grid((#[trigger] added_now[k]).start().0 as int, added_now[k].start().1 as int)
            &&& board.on_grid(added_now[k].end().0 as int, added_now[k].end().1 as int)
        } by {
            if k < added_then.len() {
                assert(added_now[k] == added_then[k]);
            }
        }
    }
    assert forall|k: int| bl <= k < now.len() implies size <= (#[trigger] now[k]).ship_id() <= large by {
        if k < then.len() {
            assert(now[k] == then[k]);
        }
    }
    assert forall|i: int, j: int|
        #![trigger now[i], now[j]]
        bl <= i < j < now.len() implies now[i].ship_id() > now[j].ship_id() by {
        assert(now[i] == then[i]);
        if j < then.len() {
            assert(now[j] == then[j]);
        }
    }
    assert forall|i: int, j: int|
        #![trigger notes_now[i], notes_now[j]]
        0 <= i < j < notes_now.len() implies note_size(notes_now[i]) > note_size(notes_now[j]) by {
        assert(notes_now[i] == notes_then[i]);
        assert(note_in_range(notes_then, i, size + 1, large));
        if j < notes_then.len() {
            assert(notes_now[j] == notes_then[j]);
        }
    }
    assert forall|s: usize| size <= s <= large && no_room(board, before, s) implies #[trigger] warned(notes_now, s) by {
        if s == size {
            lemma_no_room_stays(board, before, then, s);
            assert(notes_now[notes_then.len() as int] == Notice::NoSpaceForShip(size));
        } else {
            assert(warned(notes_then, s));
            let i = choose|i: int| 0 <= i < notes_then.len() && notes_then[i] == Notice::NoSpaceForShip(s);
            assert(notes_now[i] == notes_then[i]);
        }
    }
    assert forall|s: usize| size <= s <= large && #[trigger] warned(notes_now, s) implies no_room(board, now, s) by {
        let i = choose|i: int| 0 <= i < notes_now.len() && notes_now[i] == Notice::NoSpaceForShip(s);
        if i < notes_then.len() {
            assert(notes_then[i] == notes_now[i]);
            assert(warned(notes_then, s));
            assert(note_in_range(notes_then, i, size + 1, large));
            lemma_no_room_stays(board, then, now, s);
        } else {
            assert(s == size && now == then);
        }
    }
    assert forall|s: usize| size <= s <= large implies #[trigger] warned(notes_now, s) || has_ship_id(now, s) by {
        if s == size {
            if no_room(board, then, size) {
                assert(notes_now[notes_then.len() as int] == Notice::NoSpaceForShip(size));
            } else if now != then {
                assert(now[now.len() - 1].ship_id() == size);
            }
        } else {
            if warned(notes_then, s) {
                let i = choose|i: int| 0 <= i < notes_then.len() && notes_then[i] == Notice::NoSpaceForShip(s);
                assert(notes_now[i] == notes_then[i]);
            } else {
                let k = choose|k: int| 0 <= k < then.len() && (#[trigger] then[k]).ship_id() == s;
                assert(now[k] == then[k]);
            }
        }
    }
    assert forall|i: int| 0 <= i < notes_now.len() implies match #[trigger] notes_now[i] {
        Notice::NoSpaceForShip(s) => size <= s <= large,
        Notice::ShipAdded { size: s, col, row } => {
            &&& size <= s <= large
            &&& exists|k: int|
                bl <= k < now.len() && (#[trigger] now[k]).ship_id() == s && now[k].start() == (col, row)
        },
        _ => false,
    } by {
        if i < notes_then.len() {
            assert(notes_now[i] == notes_then[i]);
            assert(note_in_range(notes_then, i, size + 1, large));
            match notes_then[i] {
                Notice::ShipAdded { size: s, col, row } => {
                    let k = choose|k: int|
                        bl <= k < then.len() && (#[trigger] then[k]).ship_id() == s && then[k].start() == (col, row);
                    assert(now[k] == then[k]);
                },
                _ => {},
            }
        } else {
            if now != then {
                assert(now[now.len() - 1].ship_id() == size);
            }
        }
    }
}

/// The `i`-th notice is about a size from `small` to `large`.
pub open spec fn note_in_range(notes: Seq<Notice>, i: int, small: int, large: int) -> bool {
    match notes[i] {
        Notice::NoSpaceForShip(s) => small <= s <= large,
        Notice::ShipAdded { size, col, row } => small <= size <= large,
        _ => false,
    }
}

/// Sets the number of rows, where `row_col` is true, or else of columns,
/// to the size that `next_value` holds. Without a value, or with one that
/// is no size, the game stays as it is.
pub fn handle_row_col(myboard: &mut GameData, next_value: Option<&String>, row_col: bool) -> (r: Result<
    (),
    RowColErr,
>)
    ensures
        old(myboard).wf() ==> final(myboard).wf(),
        match r {
            Ok(_) => {
                &&& next_value is Some
                &&& size_of_text(next_value->0@) matches Ok(num) && final(myboard)@ == if row_col {
                    GameView { rows: num, ..old(myboard)@ }
                } else {
                    GameView { cols: num, ..old(myboard)@ }
                }
            },
            Err(e) => {
                &&& final(myboard)@ == old(myboard)@
                &&& match next_value {
                    Some(text) => size_of_text(text@) == Err::<usize, RowColErr>(e),
                    None => e == RowColErr::Failed,
                }
            },
        },
{
    match next_value {
        Some(text) => {
            match parse_to_usize(text.as_str()) {
                Ok(value) => {
                    let set = myboard.set_row_or_col(value, row_col);
                    assert(set is Ok);
                    Ok(())
                },
                Err(err) => Err(err),
            }
        },
        None => Err(RowColErr::Failed),
    }
}

/// Notes why a dimension was refused.
pub fn handle_row_col_error(err: RowColErr, is_col: bool, out: &mut Vec<Notice>)
    ensures
        final(out)@ == old(out)@.push(Notice::RowCol { err, is_col }),
{
    out.push(Notice::RowCol { err, is_col });
}

/// Notes the commands that there are.
pub fn handle_help(out: &mut Vec<Notice>)
    ensures
        final(out)@ == old(out)@.push(Notice::Help),
{
    out.push(Notice::Help);
}

/// Begins a new game that is to be written to the path `next_guess`:
/// the game is made new, and with a path it takes the path as its file
/// name and the steps of the file name and of the creation count as taken.
pub fn handle_create(
    myboard: &mut GameData,
    next_guess: Option<&String>,
    mystate: &mut Vec<StateCreate>,
    out: &mut Vec<Notice>,
) -> (r: bool)
    ensures
        final(myboard).wf(),
        r == next_guess is Some,
        match next_guess {
            Some(path) => {
                &&& final(myboard)@ == (GameView { filename: path@, ..default_game() })
                &&& final(mystate)@ == old(mystate)@.push(StateCreate::StateFileName).push(StateCreate::StateCreate)
                &&& final(out)@ == old(out)@
            },
            None => {
                &&& final(myboard)@ == default_game()
                &&& final(mystate)@ == old(mystate)@
                &&& final(out)@ == old(out)@.push(Notice::MissingCreatePath)
            },
        },
{
    *myboard = GameData::default();
    match next_guess {
        Some(path) => {
            myboard.set_filename(path.clone());
            mystate.push(StateCreate::StateFileName);
            mystate.push(StateCreate::StateCreate);
            true
        },
        None => {
            out.push(Notice::MissingCreatePath);
            false
        },
    }
}

/// The larger of two numbers.
pub open spec fn larger(a: usize, b: usize) -> usize {
    if a >= b {
        a
    } else {
        b
    }
}

/// The largest ship size that [`handle_ships_size`] asks for with a new
/// smallest size `n`: none where ship sizes are given for the first time,
/// else the larger of the current largest size and `n`.
pub open spec fn largest_asked(current: usize, n: usize, given_before: bool) -> Option<usize> {
    if given_before {
        Some(larger(current, n))
    } else {
        None
    }
}

/// Takes `next_guess` as a ship size. The first size that is given becomes
/// the smallest ship size, and the largest stays unless it is below; each
/// later size becomes the smallest ship size with the largest size raised
/// to it where it is above. The step of the ship sizes then counts as taken.
///
/// A text that is no size is noted, and so is a size that the game refuses,
/// which is the size one; the command is given up then with `false`, and
/// the game and the steps stay as they were.
pub fn handle_ships_size(
    myboard: &mut GameData,
    next_guess: Option<&String>,
    mystate: &mut Vec<StateCreate>,
    out: &mut Vec<Notice>,
) -> (r: bool)
    ensures
        old(myboard).wf() ==> final(myboard).wf(),
        if !old(mystate)@.contains(StateCreate::StateCreate) {
            &&& !r
            &&& final(myboard)@ == old(myboard)@
            &&& final(mystate)@ == old(mystate)@
            &&& final(out)@ == old(out)@.push(Notice::ShipsWithoutCreate)
        } else {
            match next_guess {
                None => r && final(myboard)@ == old(myboard)@ && final(mystate)@ == old(mystate)@ && final(out)@ == old(
                    out,
                )@,
                Some(text) => match size_of_text(text@) {
                    Err(e) => {
                        &&& !r
                        &&& final(myboard)@ == old(myboard)@
                        &&& final(mystate)@ == old(mystate)@
                        &&& final(out)@ == old(out)@.push(Notice::ShipsValue(e))
                    },
                    Ok(n) => if n < 2 {
                        &&& !r
                        &&& final(myboard)@ == old(myboard)@
                        &&& final(mystate)@ == old(mystate)@
                        &&& final(out)@.len() == old(out)@.len() + 1
                        &&& final(out)@.drop_last() == old(out)@
                        &&& final(out)@.last() matches Notice::ShipSizesRefused(words) && words@
                            == smallest_ship_message()
                    } else {
                        &&& r
                        &&& final(out)@ == old(out)@
                        &&& final(mystate)@ == if old(mystate)@.contains(StateCreate::StateShips) {
                            old(mystate)@
                        } else {
                            old(mystate)@.push(StateCreate::StateShips)
                        }
                        &&& final(myboard)@ == (GameView {
                            smallestship: n,
                            largestship: chosen_largest(
                                old(myboard)@.largestship,
                                n,
                                largest_asked(
                                    old(myboard)@.largestship,
                                    n,
                                    old(mystate)@.contains(StateCreate::StateShips),
                                ),
                            ),
                            ..old(myboard)@
                        })
                    },
                },
            }
        },
{
    if !has_state(mystate, StateCreate::StateCreate) {
        out.push(Notice::ShipsWithoutCreate);
        return false;
    }
    match next_guess {
        Some(text) => {
            match parse_to_usize(text.as_str()) {
                Ok(n) => {
                    let given_before = has_state(mystate, StateCreate::StateShips);
                    let new_large = if given_before {
                        let (_small, large) = myboard.get_shipsizes();
                        Some(if large >= n {
                            large
                        } else {
                            n
                        })
                    } else {
                        None
                    };
                    match myboard.set_shipsizes(n, new_large) {
                        Ok(_) => {
                            if !given_before {
                                mystate.push(StateCreate::StateShips);
                            }
                        },
                        Err(words) => {
                            out.push(Notice::ShipSizesRefused(String::from_str(words)));
                            assert(out@.drop_last() == old(out)@);
                            return false;
                        },
                    }
                },
                Err(err) => {
                    out.push(Notice::ShipsValue(err));
                    return false;
                },
            }
        },
        None => {},
    }
    true
}

/// Whether the text begins with two hyphens, as a command does.
pub open spec fn is_command(text: Seq<char>) -> bool {
    text.len() >= 2 && text[0] == '-' && text[1] == '-'
}

/// Whether the text begins with two hyphens.
pub fn looks_like_command(text: &str) -> (r: bool)
    ensures
        r == is_command(text@),
{
    let chars = to_chars(text);
    chars.len() >= 2 && chars[0] == '-' && chars[1] == '-'
}

/// Gives the game a player with the name `next_guess` and no ship. The
/// player's number is the number of boards that the game then has, the
/// number of players is raised by one, and the step of the player counts
/// as taken.
pub fn handle_player(
    myboard: &mut GameData,
    next_guess: Option<&String>,
    mystate: &mut Vec<StateCreate>,
    out: &mut Vec<Notice>,
) -> (r: bool)
    requires
        old(myboard)@.player_count < usize::MAX,
        old(myboard)@.boards.len() < usize::MAX,
    ensures
        old(myboard).wf() ==> final(myboard).wf(),
        if !old(mystate)@.contains(StateCreate::StateCreate) {
            &&& !r
            &&& final(myboard)@ == old(myboard)@
            &&& final(mystate)@ == old(mystate)@
            &&& final(out)@ == old(out)@.push(Notice::PlayerWithoutCreate)
        } else {
            match next_guess {
                None => {
                    &&& !r
                    &&& final(myboard)@ == old(myboard)@
                    &&& final(mystate)@ == old(mystate)@
                    &&& final(out)@ == old(out)@.push(Notice::EmptyPlayerName)
                },
                Some(name) => if is_command(name@) {
                    &&& !r
                    &&& final(myboard)@ == old(myboard)@
                    &&& final(mystate)@ == old(mystate)@
                    &&& final(out)@.len() == old(out)@.len() + 1
                    &&& final(out)@.drop_last() == old(out)@
                    &&& final(out)@.last() matches Notice::CommandForPlayerName(found) && found@ == name@
                } else {
                    &&& r
                    &&& final(mystate)@ == old(mystate)@.push(StateCreate::StatePlayer)
                    &&& final(out)@ == old(out)@
                    &&& final(myboard)@ == (GameView {
                        player_count: (old(myboard)@.player_count + 1) as usize,
                        boards: final(myboard)@.boards,
                        ..old(myboard)@
                    })
                    &&& final(myboard)@.boards.len() == old(myboard)@.boards.len() + 1
                    &&& final(myboard)@.boards.drop_last() == old(myboard)@.boards
                    &&& final(myboard)@.boards.last().wf()
                    &&& final(myboard)@.boards.last().name() == name@
                    &&& final(myboard)@.boards.last().get_playernum() == old(myboard)@.boards.len() + 1
                    &&& final(myboard)@.boards.last().ships() == Seq::<ShipBoundingBox>::empty()
                },
            }
        },
{
    if !has_state(mystate, StateCreate::StateCreate) {
        out.push(Notice::PlayerWithoutCreate);
        return false;
    }
    match next_guess {
        Some(name) => {
            if looks_like_command(name.as_str()) {
                out.push(Notice::CommandForPlayerName(name.clone()));
                assert(out@.drop_last() == old(out)@);
                return false;
            }
            let boards = myboard.get_boards_len();
            let mut tmp_player = PlayBoard::default();
            tmp_player.set_playername(name.clone());
            tmp_player.set_playernum(boards + 1);
            mystate.push(StateCreate::StatePlayer);
            myboard.increment_playercount();
            myboard.boards_add(tmp_player);
            proof {
                assert(myboard@.boards.drop_last() == old(myboard)@.boards);
            }
            true
        },
        None => {
            out.push(Notice::EmptyPlayerName);
            false
        },
    }
}

/// Whether `c` has no place in a coordinate: it is no letter from `A` to
/// `Z`, no digit and no white space.
pub open spec fn is_stray(c: char) -> bool {
    !is_upper(c) && !is_digit(c) && !is_space(c)
}

/// Whether `s` holds a character that has no place in a coordinate.
pub open spec fn has_stray(s: Seq<char>) -> bool {
    exists|i: int| 0 <= i < s.len() && is_stray(#[trigger] s[i])
}

/// Whether `chars` holds a character that has no place in a coordinate.
pub fn holds_stray(chars: &Vec<char>) -> (r: bool)
    ensures
        r == has_stray(chars@),
{
    let n: usize = chars.len();
    let mut i: usize = 0;
    while i < n
        invariant
            i <= n == chars@.len(),
            forall|j: int| 0 <= j < i ==> !is_stray(#[trigger] chars@[j]),
        decreases n - i,
    {
        let c = chars[i];
        if !(c >= 'A' && c <= 'Z') && !(c >= '0' && c <= '9') && !is_whitespace(c) {
            assert(is_stray(chars@[i as int]));
            return true;
        }
        i += 1;
    }
    false
}

/// The direction that a text in upper case names: `V` or `H`.
pub open spec fn direction_named(upper: Seq<char>) -> Option<Direction> {
    if upper.len() == 1 && upper[0] == 'V' {
        Some(Direction::Vertical)
    } else if upper.len() == 1 && upper[0] == 'H' {
        Some(Direction::Horizontal)
    } else {
        None
    }
}

/// The ship that the fields `parts` of a placement ask for, where
/// `upper_cell` and `upper_dir` are the second and the third field in upper
/// case: the size, which is the identifier, the first cell and the
/// direction. The first thing that is wrong gives the notice: the number of
/// fields, the size, its range, the coordinate, a stray character in it,
/// the row, the direction.
pub open spec fn request_of(
    parts: Seq<Seq<char>>,
    upper_cell: Seq<char>,
    upper_dir: Seq<char>,
    smallest: usize,
    largest: usize,
) -> Result<(usize, (usize, usize), Direction), Notice> {
    if parts.len() != 3 {
        Err(Notice::InvalidShipFormat)
    } else {
        match size_of_text(parts[0]) {
            Err(_) => Err(Notice::InvalidShipSize),
            Ok(size) => if !(smallest <= size <= largest) {
                Err(Notice::ShipSizeOutOfRange)
            } else {
                match query_of(upper_cell) {
                    Err(q) => Err(Notice::Query(q)),
                    Ok(_) => if has_stray(upper_cell) {
                        Err(Notice::InvalidShipEntry)
                    } else {
                        match size_of_text(digit_chars(upper_cell)) {
                            Err(_) => Err(Notice::InvalidRowNumber),
                            Ok(row) => match direction_named(upper_dir) {
                                None => Err(Notice::InvalidDirection),
                                Some(direction) => Ok(
                                    (size, (letters_value(upper_letters(upper_cell)) as usize, row), direction),
                                ),
                            },
                        }
                    },
                }
            },
        }
    }
}

/// The ship that the fields of a placement ask for: see [`request_of`].
pub fn read_request(
    parts: &Vec<Vec<char>>,
    upper_cell: &str,
    upper_dir: &str,
    smallest: usize,
    largest: usize,
) -> (r: Result<(usize, (usize, usize), Direction), Notice>)
    ensures
        r == request_of(views(parts@), upper_cell@, upper_dir@, smallest, largest),
{
    if parts.len() != 3 {
        return Err(Notice::InvalidShipFormat);
    }
    assert(views(parts@)[0] == parts@[0]@);
    let ship_id = match parse_size(&parts[0]) {
        Ok(ship_tmp) => {
            if ship_tmp >= smallest && ship_tmp <= largest {
                ship_tmp
            } else {
                return Err(Notice::ShipSizeOutOfRange);
            }
        },
        Err(_) => {
            return Err(Notice::InvalidShipSize);
        },
    };
    match translate_upper(upper_cell) {
        Ok(_) => {},
        Err(err) => {
            return Err(Notice::Query(err));
        },
    }
    let coords = to_chars(upper_cell);
    if holds_stray(&coords) {
        return Err(Notice::InvalidShipEntry);
    }
    let (col_str, row_str) = letters_and_digits(&coords);
    let my_row = match parse_size(&row_str) {
        Ok(n) => n,
        Err(_) => {
            return Err(Notice::InvalidRowNumber);
        },
    };
    proof {
        lemma_kept(coords@);
    }
    let my_col = match column_index(&col_str) {
        Some(col) => col,
        None => 0,
    };
    let up_ship = to_chars(upper_dir);
    let direction = if up_ship.len() == 1 && up_ship[0] == 'V' {
        Direction::Vertical
    } else if up_ship.len() == 1 && up_ship[0] == 'H' {
        Direction::Horizontal
    } else {
        return Err(Notice::InvalidDirection);
    };
    Ok((ship_id, (my_col, my_row), direction))
}

/// The ship that the placement `entry` asks for. A placement has three
/// fields with colons between them: the size, the cell, the direction, as
/// in `3:B7:H`. Cell and direction may be in lower case.
pub open spec fn entry_request(entry: Seq<char>, smallest: usize, largest: usize) -> Result<
    (usize, (usize, usize), Direction),
    Notice,
> {
    let parts = fields(entry, ':');
    request_of(parts, uppercased(parts[1]), uppercased(parts[2]), smallest, largest)
}

/// The ship that the placement `entry` asks for.
pub fn parse_entry(entry: &str, smallest: usize, largest: usize) -> (r: Result<
    (usize, (usize, usize), Direction),
    Notice,
>)
    ensures
        r == entry_request(entry@, smallest, largest),
{
    let chars = to_chars(entry);
    let parts = split(&chars, ':');
    if parts.len() != 3 {
        return Err(Notice::InvalidShipFormat);
    }
    assert(views(parts@)[1] == parts@[1]@);
    assert(views(parts@)[2] == parts@[2]@);
    let upper_cell = to_upper(string_of(&parts[1]).as_str());
    let upper_dir = to_upper(string_of(&parts[2]).as_str());
    read_request(&parts, upper_cell.as_str(), upper_dir.as_str(), smallest, largest)
}

/// Places the ship of `ship_id` cells from `origin` in `direction` for the
/// player who was added last. The game is changed only if the ship is placed.
pub fn place_request(
    myboard: &mut GameData,
    ship_id: usize,
    origin: (usize, usize),
    direction: Direction,
    out: &mut Vec<Notice>,
) -> (r: bool)
    requires
        old(myboard).wf(),
    ensures
        final(myboard).wf(),
        if old(myboard)@.boards.len() == 0 {
            &&& !r
            &&& final(myboard)@ == old(myboard)@
            &&& final(out)@ == old(out)@.push(Notice::NoPlayerAvailable)
        } else if placement_error(ship_id, origin, direction, &*old(myboard), old(myboard)@.boards.last().ships())
            is Some {
            &&& !r
            &&& final(myboard)@ == old(myboard)@
            &&& final(out)@ == old(out)@.push(Notice::ShipNotCreated)
        } else {
            &&& r
            &&& final(out)@ == old(out)@
            &&& final(myboard)@ == (GameView { boards: final(myboard)@.boards, ..old(myboard)@ })
            &&& final(myboard)@.boards.len() == old(myboard)@.boards.len()
            &&& final(myboard)@.boards.drop_last() == old(myboard)@.boards.drop_last()
            &&& final(myboard)@.boards.last().name() == old(myboard)@.boards.last().name()
            &&& final(myboard)@.boards.last().get_playernum() == old(myboard)@.boards.last().get_playernum()
            &&& final(myboard)@.boards.last().ships().len() == old(myboard)@.boards.last().ships().len() + 1
            &&& final(myboard)@.boards.last().ships().drop_last() == old(myboard)@.boards.last().ships()
            &&& final(myboard)@.boards.last().ships().last().is_placed(ship_id, origin, direction)
        },
{
    let mut myplayer = match myboard.boards_pop_last() {
        Some(player) => player,
        None => {
            out.push(Notice::NoPlayerAvailable);
            return false;
        },
    };
    let ghost old_boards = old(myboard)@.boards;
    let ghost popped = myplayer;
    match ShipBoundingBox::new(ship_id, origin, direction, myboard, &myplayer) {
        Some(new_ship) => {
            proof {
                let ships = myplayer.ships();
                assert forall|i: int| 0 <= i < ships.len() implies !(#[trigger] ships[i]).shares_cell(&new_ship) by {
                    assert(!ships[i].meets_segment(ship_id, origin, direction));
                }
            }
            let added = myplayer.add_ship(new_ship);
            assert(added);
            assert(myplayer.ships().drop_last() == popped.ships());
            myboard.boards_add(myplayer);
            proof {
                assert(myboard@.boards.drop_last() == old_boards.drop_last());
            }
            true
        },
        None => {
            myboard.boards_add(myplayer);
            assert(myboard@.boards == old_boards) by {
                assert(old_boards.drop_last().push(old_boards.last()) =~= old_boards);
            }
            out.push(Notice::ShipNotCreated);
            false
        },
    }
}

/// The ships of the player who was added last; none where there is no player.
pub open spec fn last_ships(game: GameView) -> Seq<ShipBoundingBox> {
    if game.boards.len() > 0 {
        game.boards.last().ships()
    } else {
        Seq::<ShipBoundingBox>::empty()
    }
}

/// By how many ships the player who was added last has more in the game
/// `after` than in the game `before`.
pub open spec fn ships_gained(before: GameView, after: GameView) -> int {
    last_ships(after).len() - last_ships(before).len()
}

/// The first `k` of the placements `entries` have been carried out on a
/// player who had the ships `before` and now has the ships `after`: each
/// asked for a ship that the player could have on the grid of `board`
/// beside the ships that were there by then, and the ships were added in
/// this order.
pub open spec fn placements_done(
    board: &GameData,
    entries: Seq<Seq<char>>,
    before: Seq<ShipBoundingBox>,
    after: Seq<ShipBoundingBox>,
    k: int,
) -> bool {
    &&& after.len() == before.len() + k
    &&& after.subrange(0, before.len() as int) == before
    &&& forall|j: int|
        0 <= j < k ==> {
            &&& entry_request(#[trigger] entries[j], board@.smallestship, board@.largestship) matches Ok(request)
            &&& placement_error(
                request.0,
                request.1,
                request.2,
                board,
                after.subrange(0, before.len() + j),
            ) is None
            &&& after[before.len() + j].is_placed(request.0, request.1, request.2)
        }
}

/// The notice for the placement `entry`, which was not carried out:
/// the notice that its text gives, or that the game has no player, or
/// that the player cannot have the ship.
pub open spec fn stop_notice(entry: Seq<char>, smallest: usize, largest: usize, has_player: bool) -> Notice {
    match entry_request(entry, smallest, largest) {
        Err(notice) => notice,
        Ok(_) => if has_player {
            Notice::ShipNotCreated
        } else {
            Notice::NoPlayerAvailable
        },
    }
}

/// The placements `entries` have been carried out one after the other for
/// the player of the game `before` who was added last, up to the first
/// that could not be: `k` of them. The game is now `after`, and the
/// notices went from `out_before` to `out_after`.
pub open spec fn placed_upto(
    board: &GameData,
    entries: Seq<Seq<char>>,
    after: GameView,
    out_before: Seq<Notice>,
    out_after: Seq<Notice>,
    k: int,
) -> bool {
    let before = board@;
    &&& 0 <= k <= entries.len()
    &&& after == (GameView { boards: after.boards, ..before })
    &&& after.boards.len() == before.boards.len()
    &&& placements_done(board, entries, last_ships(before), last_ships(after), k)
    &&& before.boards.len() > 0 ==> {
        &&& after.boards.drop_last() == before.boards.drop_last()
        &&& after.boards.last().name() == before.boards.last().name()
        &&& after.boards.last().get_playernum() == before.boards.last().get_playernum()
    }
    &&& if k == entries.len() {
        out_after == out_before
    } else {
        &&& out_after == out_before.push(
            stop_notice(entries[k], before.smallestship, before.largestship, before.boards.len() > 0),
        )
        &&& before.boards.len() > 0 ==> (entry_request(
            entries[k],
            before.smallestship,
            before.largestship,
        ) matches Ok(request) ==> placement_error(request.0, request.1, request.2, board, last_ships(after))
            is Some)
    }
}

/// Carries out the placements `ship_data` one after the other for the
/// player who was added last, and stops at the first that cannot be
/// carried out, with a notice. Says whether all were carried out.
pub fn process_ship_data(ship_data: Vec<String>, myboard: &mut GameData, out: &mut Vec<Notice>) -> (r: bool)
    requires
        old(myboard).wf(),
    ensures
        final(myboard).wf(),
        placed_upto(
            &*old(myboard),
            lines_view(&ship_data),
            final(myboard)@,
            old(out)@,
            final(out)@,
            ships_gained(old(myboard)@, final(myboard)@),
        ),
        r == (ships_gained(old(myboard)@, final(myboard)@) == ship_data@.len()),
{
    let ghost entries = lines_view(&ship_data);
    let ghost start = *myboard;
    let ghost start_ships = last_ships(myboard@);
    let n: usize = ship_data.len();
    let (smallest, largest) = myboard.get_shipsizes();
    let mut i: usize = 0;
    assert(last_ships(myboard@).subrange(0, start_ships.len() as int) == start_ships);
    while i < n
        invariant
            i <= n == ship_data@.len(),
            entries == lines_view(&ship_data),
            start == *old(myboard),
            start_ships == last_ships(start@),
            smallest == start@.smallestship,
            largest == start@.largestship,
            myboard.wf(),
            out@ == old(out)@,
            myboard@ == (GameView { boards: myboard@.boards, ..start@ }),
            myboard@.boards.len() == start@.boards.len(),
            placements_done(&start, entries, start_ships, last_ships(myboard@), i as int),
            start@.boards.len() > 0 ==> {
                &&& myboard@.boards.drop_last() == start@.boards.drop_last()
                &&& myboard@.boards.last().name() == start@.boards.last().name()
                &&& myboard@.boards.last().get_playernum() == start@.boards.last().get_playernum()
            },
        decreases n - i,
    {
        assert(entries[i as int] == ship_data@[i as int]@);
        let ghost ships_then = last_ships(myboard@);
        let (ship_id, origin, direction) = match parse_entry(ship_data[i].as_str(), smallest, largest) {
            Ok(request) => request,
            Err(notice) => {
                out.push(notice);
                assert(placed_upto(&start, entries, myboard@, old(out)@, out@, i as int));
                return false;
            },
        };
        let ghost board_then = *myboard;
        if !place_request(myboard, ship_id, origin, direction, out) {
            assert(placed_upto(&start, entries, myboard@, old(out)@, out@, i as int));
            return false;
        }
        proof {
            let ships_now = last_ships(myboard@);
            assert(ships_now.drop_last() == ships_then);
            assert(placement_error(ship_id, origin, direction, &board_then, ships_then) is None);
            assert(placement_error(ship_id, origin, direction, &start, ships_then) is None);
            assert(ships_now.subrange(0, start_ships.len() as int) == start_ships) by {
                assert forall|j: int| 0 <= j < start_ships.len() implies ships_now[j] == start_ships[j] by {
                    assert(ships_then.subrange(0, start_ships.len() as int)[j] == ships_then[j]);
                    assert(ships_now.drop_last()[j] == ships_now[j]);
                }
                assert(ships_now.subrange(0, start_ships.len() as int) =~= start_ships);
            }
            assert forall|j: int| 0 <= j < i + 1 implies {
                &&& entry_request(#[trigger] entries[j], smallest, largest) matches Ok(request)
                &&& placement_error(
                    request.0,
                    request.1,
                    request.2,
                    &start,
                    ships_now.subrange(0, start_ships.len() + j),
                ) is None
                &&& ships_now[start_ships.len() + j].is_placed(request.0, request.1, request.2)
            } by {
                if j < i {
                    assert(ships_now.drop_last()[start_ships.len() + j] == ships_now[start_ships.len() + j]);
                    assert(ships_now.subrange(0, start_ships.len() + j) =~= ships_then.subrange(
                        0,
                        start_ships.len() + j,
                    ));
                } else {
                    assert(ships_now.subrange(0, start_ships.len() + j) =~= ships_then);
                }
            }
        }
        i += 1;
    }
    assert(placed_upto(&start, entries, myboard@, old(out)@, out@, n as int));
    true
}

/// Whether the text holds a colon.
pub fn holds_colon(text: &str) -> (r: bool)
    ensures
        r == text@.contains(':'),
{
    let chars = to_chars(text);
    let n: usize = chars.len();
    let mut i: usize = 0;
    while i < n
        invariant
            i <= n == chars@.len(),
            chars@ == text@,
            forall|j: int| 0 <= j < i ==> chars@[j] != ':',
        decreases n - i,
    {
        if chars[i] == ':' {
            return true;
        }
        i += 1;
    }
    false
}

/// The notice for an argument that cannot be the placement of a ship, if
/// it cannot: it is a command, or it holds no colon.
pub open spec fn argument_fault(arg: Seq<char>) -> Option<Notice> {
    if is_command(arg) {
        Some(Notice::NoShipStatus)
    } else if !arg.contains(':') {
        Some(Notice::BadPlacementFormat)
    } else {
        None
    }
}

/// Places ships for the player who was added last, one for each of the
/// arguments `args`, which are placements as in `3:B7:H`.
///
/// Nothing is placed before a game was created and a player given, nor
/// where one of the arguments is a command or holds no colon. Else the
/// placements are carried out up to the first that cannot be. Says whether
/// every placement was carried out; where not, a notice says why.
pub fn handle_place_ship(
    myboard: &mut GameData,
    args: &Vec<String>,
    mystate: &mut Vec<StateCreate>,
    out: &mut Vec<Notice>,
) -> (r: bool)
    requires
        old(myboard).wf(),
    ensures
        final(myboard).wf(),
        final(mystate)@ == old(mystate)@,
        if !old(mystate)@.contains(StateCreate::StateCreate) || !old(mystate)@.contains(StateCreate::StatePlayer) {
            &&& !r
            &&& final(myboard)@ == old(myboard)@
            &&& final(out)@ == old(out)@.push(Notice::PlaceWithoutPlayer)
        } else if exists|k: int| 0 <= k < args@.len() && argument_fault(#[trigger] lines_view(args)[k]) is Some {
            &&& !r
            &&& final(myboard)@ == old(myboard)@
            &&& exists|k: int|
                {
                    &&& 0 <= k < args@.len()
                    &&& argument_fault(#[trigger] lines_view(args)[k]) is Some
                    &&& forall|j: int| 0 <= j < k ==> argument_fault(#[trigger] lines_view(args)[j]) is None
                    &&& final(out)@ == old(out)@.push(argument_fault(lines_view(args)[k])->0)
                }
        } else {
            &&& r == (ships_gained(old(myboard)@, final(myboard)@) == args@.len())
            &&& placed_upto(
                &*old(myboard),
                lines_view(args),
                final(myboard)@,
                old(out)@,
                final(out)@,
                ships_gained(old(myboard)@, final(myboard)@),
            )
        },
{
    if !has_state(mystate, StateCreate::StateCreate) || !has_state(mystate, StateCreate::StatePlayer) {
        out.push(Notice::PlaceWithoutPlayer);
        return false;
    }
    let ghost texts = lines_view(args);
    let n: usize = args.len();
    let mut ship_data: Vec<String> = Vec::new();
    let mut i: usize = 0;
    while i < n
        invariant
            i <= n == args@.len(),
            texts == lines_view(args),
            ship_data@.len() == i,
            forall|j: int| 0 <= j < i ==> argument_fault(#[trigger] texts[j]) is None,
            forall|j: int| 0 <= j < i ==> (#[trigger] ship_data@[j])@ == texts[j],
            out@ == old(out)@,
            *myboard == *old(myboard),
            *mystate == *old(mystate),
            myboard.wf(),
            old(mystate)@.contains(StateCreate::StateCreate),
            old(mystate)@.contains(StateCreate::StatePlayer),
        decreases n - i,
    {
        assert(texts[i as int] == args@[i as int]@);
        let next_guess = &args[i];
        if looks_like_command(next_guess.as_str()) {
            out.push(Notice::NoShipStatus);
            return false;
        }
        if holds_colon(next_guess.as_str()) {
            ship_data.push(next_guess.clone());
        } else {
            out.push(Notice::BadPlacementFormat);
            return false;
        }
        i += 1;
    }
    assert(lines_view(&ship_data) =~= texts);
    process_ship_data(ship_data, myboard, out)
}

/// `Column` where `is_col` holds, else `Row`.
pub open spec fn dimension_word(is_col: bool) -> Seq<char> {
    if is_col {
        "Column"@
    } else {
        "Row"@
    }
}

/// The text of the error for a query.
pub open spec fn query_error_text(e: QueryError) -> Seq<char> {
    match e {
        QueryError::InvalidFormat => "Error: Invalid coordinate format."@,
        QueryError::InvalidRow => "Error: Invalid row"@,
        QueryError::InvalidColumn => "Error: Invalid column"@,
        QueryError::OutOfBounds => "Error: Out of bounds!!"@,
    }
}

/// The text of a notice, as the user is to read it.
pub open spec fn notice_text(notice: Notice) -> Seq<char> {
    match notice {
        Notice::RowCol { err, is_col } => match err {
            RowColErr::Failed => "Error: "@ + dimension_word(is_col) + " is not a valid value"@,
            RowColErr::TooSmall => "Error: "@ + dimension_word(is_col) + " value must be greater than or equal to 1"@,
            RowColErr::TooBig => "Error: "@ + dimension_word(is_col) + " value must be less than "@ + decimal_digits(
                MAX_SIZE as nat,
            ),
        },
        Notice::Help =>
            "Available commands: --load <filename>\n--guess <list in A1 or AA10 format>\n--help (this output)\n--exit or --quit to quit."@,
        Notice::MissingCreatePath => "Error: Missing path for Create command"@,
        Notice::ShipsWithoutCreate => "Error: Called Ships without a valid create and file path"@,
        Notice::ShipsValue(err) => match err {
            RowColErr::Failed => "Error: Unable to convert Ships value to integer"@,
            RowColErr::TooSmall => "Error: A ship must be at least 1 or greater"@,
            RowColErr::TooBig => "Error: A ship must be smaller than "@ + decimal_digits(MAX_SIZE as nat),
        },
        Notice::ShipSizesRefused(words) => words@,
        Notice::PlayerWithoutCreate => "Error: Called Player without a valid create or file path"@,
        Notice::CommandForPlayerName(found) => "Error: Found command "@ + found@ + " instead of a player name."@,
        Notice::EmptyPlayerName => "Error: Empty playername found!"@,
        Notice::NoPlayerUnderCreation => "Error: No player currently under creation."@,
        Notice::NoSpaceForShip(size) => "Warning: No space for ship size "@ + decimal_digits(size as nat),
        Notice::ShipAdded { size, col, row } => "Added ship "@ + decimal_digits(size as nat) + ", Col "@
            + decimal_digits(col as nat) + ", Row "@ + decimal_digits(row as nat),
        Notice::PlaceWithoutPlayer =>
            "Error: Called Ships without a valid create and file path or without a player."@,
        Notice::NoShipStatus => "Error: No status for the new ship."@,
        Notice::BadPlacementFormat => "Error: Invalid format for ship placement."@,
        Notice::InvalidShipFormat => "Error: Invalid ship format."@,
        Notice::ShipSizeOutOfRange => "Error: Ship size out of allowed range."@,
        Notice::InvalidShipSize => "Error: Invalid ship size."@,
        Notice::Query(e) => query_error_text(e),
        Notice::InvalidShipEntry => "Error: Invalid ship entry format."@,
        Notice::InvalidRowNumber => "Error: Invalid row number."@,
        Notice::InvalidDirection => "Error: Invalid direction."@,
        Notice::NoPlayerAvailable => "Error: No player available."@,
        Notice::ShipNotCreated => "Error: Failed to create ship."@,
        Notice::PlacementGaveUp => "Warning: Could not place all ships after multiple attempts."@,
    }
}

/// `Column` where `is_col` holds, else `Row`.
fn dimension_name(is_col: bool) -> (r: &'static str)
    ensures
        r@ == dimension_word(is_col),
{
    if is_col {
        "Column"
    } else {
        "Row"
    }
}

/// The text of a notice, as the user is to read it.
pub fn notice_message(notice: &Notice) -> (r: String)
    ensures
        r@ == notice_text(*notice),
{
    match notice {
        Notice::RowCol { err, is_col } => {
            let text = with_text(to_chars("Error: "), dimension_name(*is_col));
            match err {
                RowColErr::Failed => string_of(&with_text(text, " is not a valid value")),
                RowColErr::TooSmall => string_of(&with_text(text, " value must be greater than or equal to 1")),
                RowColErr::TooBig => string_of(&then_number(with_text(text, " value must be less than "), MAX_SIZE)),
            }
        },
        Notice::Help => String::from_str(
            "Available commands: --load <filename>\n--guess <list in A1 or AA10 format>\n--help (this output)\n--exit or --quit to quit.",
        ),
        Notice::MissingCreatePath => String::from_str("Error: Missing path for Create command"),
        Notice::ShipsWithoutCreate => String::from_str("Error: Called Ships without a valid create and file path"),
        Notice::ShipsValue(err) => match err {
            RowColErr::Failed => String::from_str("Error: Unable to convert Ships value to integer"),
            RowColErr::TooSmall => String::from_str("Error: A ship must be at least 1 or greater"),
            RowColErr::TooBig => string_of(&with_number("Error: A ship must be smaller than ", MAX_SIZE)),
        },
        Notice::ShipSizesRefused(words) => words.clone(),
        Notice::PlayerWithoutCreate => String::from_str("Error: Called Player without a valid create or file path"),
        Notice::CommandForPlayerName(found) => {
            let text = with_text(to_chars("Error: Found command "), found.as_str());
            string_of(&with_text(text, " instead of a player name."))
        },
        Notice::EmptyPlayerName => String::from_str("Error: Empty playername found!"),
        Notice::NoPlayerUnderCreation => String::from_str("Error: No player currently under creation."),
        Notice::NoSpaceForShip(size) => string_of(&with_number("Warning: No space for ship size ", *size)),
        Notice::ShipAdded { size, col, row } => {
            let text = with_text(with_number("Added ship ", *size), ", Col ");
            let text = with_text(then_number(text, *col), ", Row ");
            string_of(&then_number(text, *row))
        },
        Notice::PlaceWithoutPlayer => String::from_str(
            "Error: Called Ships without a valid create and file path or without a player.",
        ),
        Notice::NoShipStatus => String::from_str("Error: No status for the new ship."),
        Notice::BadPlacementFormat => String::from_str("Error: Invalid format for ship placement."),
        Notice::InvalidShipFormat => String::from_str("Error: Invalid ship format."),
        Notice::ShipSizeOutOfRange => String::from_str("Error: Ship size out of allowed range."),
        Notice::InvalidShipSize => String::from_str("Error: Invalid ship size."),
        Notice::Query(e) => match e {
            QueryError::InvalidFormat => String::from_str("Error: Invalid coordinate format."),
            QueryError::InvalidRow => String::from_str("Error: Invalid row"),
            QueryError::InvalidColumn => String::from_str("Error: Invalid column"),
            QueryError::OutOfBounds => String::from_str("Error: Out of bounds!!"),
        },
        Notice::InvalidShipEntry => String::from_str("Error: Invalid ship entry format."),
        Notice::InvalidRowNumber => String::from_str("Error: Invalid row number."),
        Notice::InvalidDirection => String::from_str("Error: Invalid direction."),
        Notice::NoPlayerAvailable => String::from_str("Error: No player available."),
        Notice::ShipNotCreated => String::from_str("Error: Failed to create ship."),
        Notice::PlacementGaveUp => String::from_str("Warning: Could not place all ships after multiple attempts."),
    }
}

/// How often in a row [`handle_random_retry`] tries in vain before it gives up.
pub const MAX_RETRIES: usize = 100;

/// What the random placing by trial has done to a player with the ships
/// `before`: `after` are the player's ships and `notes` the notices.
///
/// The ships that were there are there, in their places. The ships that
/// were added have the sizes from `small` on, one after the other; each
/// lies on the grid, and each is noted. Unless there is a ship for every size up to `large`, the
/// last notice says that the placing gave up.
pub open spec fn trials_done(
    board: &GameData,
    before: Seq<ShipBoundingBox>,
    after: Seq<ShipBoundingBox>,
    notes: Seq<Notice>,
    small: int,
    large: int,
) -> bool {
    let added = after.len() - before.len();
    &&& 0 <= added <= large - small + 1
    &&& after.subrange(0, before.len() as int) == before
    &&& all_on_grid(board, after.subrange(before.len() as int, after.len() as int))
    &&& forall|j: int|
        0 <= j < added ==> {
            &&& (#[trigger] after[before.len() + j]).ship_id() == small + j
            &&& notes[j] == Notice::ShipAdded {
                size: (small + j) as usize,
                col: after[before.len() + j].start().0,
                row: after[before.len() + j].start().1,
            }
        }
    &&& if added == large - small + 1 {
        notes.len() == added
    } else {
        notes.len() == added + 1 && notes[added] == Notice::PlacementGaveUp
    }
}

/// A ship that lies on the grid is not longer than the grid is wide or high,
/// so that the placing by trial gives up on a grid that is too small for
/// one of the sizes, and says so.
pub proof fn lemma_small_grid_gives_up(
    board: &GameData,
    before: Seq<ShipBoundingBox>,
    after: Seq<ShipBoundingBox>,
    notes: Seq<Notice>,
    small: int,
    large: int,
    size: usize,
)
    requires
        trials_done(board, before, after, notes, small, large),
        forall|i: int| 0 <= i < after.len() ==> (#[trigger] after[i]).wf(),
        small <= size <= large,
        size > board@.cols,
        size > board@.rows,
    ensures
        notes.len() >= 1,
        notes.last() == Notice::PlacementGaveUp,
{
    let added = after.len() - before.len();
    if added == large - small + 1 {
        let j = size - small;
        let ship = after[before.len() + j];
        let rest = after.subrange(before.len() as int, after.len() as int);
        assert(rest[j] == ship);
        assert(ship.wf());
        assert(board.on_grid(ship.end().0 as int, ship.end().1 as int));
    }
}

/// The direction that a drawn number stands for: horizontal for an even
/// number, vertical for an odd one.
pub open spec fn drawn_direction(n: usize) -> Direction {
    if n % 2 == 0 {
        Direction::Horizontal
    } else {
        Direction::Vertical
    }
}

/// Draws what one trial needs: a column of the grid, a row of the grid, and
/// a number up to 100 for the direction.
pub fn draw_trial(myboard: &GameData) -> (draw: (usize, usize, usize))
    requires
        myboard.wf(),
    ensures
        draw.0 < myboard@.cols,
        draw.1 < myboard@.rows,
        draw.2 <= 100,
{
    let (max_col, max_row) = myboard.get_col_row();
    (random_index(max_col), random_index(max_row), random_index(101))
}

/// One trial of the random placing: places the ship of `ship_size` cells
/// with its first cell in column `draw.0` and row `draw.1`, in the
/// direction that `draw.2` stands for, if the player can have it there,
/// and notes that it was added. Says whether the ship was placed, and how
/// many trials in a row have now been in vain: none after a ship, one more
/// than `retries` else.
pub fn retry_step(
    myboard: &GameData,
    player: &mut PlayBoard,
    ship_size: usize,
    draw: (usize, usize, usize),
    retries: usize,
    out: &mut Vec<Notice>,
) -> (r: (bool, usize))
    requires
        old(player).wf(),
        retries < usize::MAX,
    ensures
        final(player).wf(),
        final(player).name() == old(player).name(),
        final(player).get_playernum() == old(player).get_playernum(),
        r.0 == (placement_error(
            ship_size,
            (draw.0, draw.1),
            drawn_direction(draw.2),
            myboard,
            old(player).ships(),
        ) is None),
        r.1 == if r.0 {
            0
        } else {
            retries + 1
        },
        r.0 ==> {
            &&& final(player).ships().len() == old(player).ships().len() + 1
            &&& final(player).ships().drop_last() == old(player).ships()
            &&& final(player).ships().last().is_placed(ship_size, (draw.0, draw.1), drawn_direction(draw.2))
            &&& final(out)@ == old(out)@.push(Notice::ShipAdded { size: ship_size, col: draw.0, row: draw.1 })
        },
        !r.0 ==> final(player).ships() == old(player).ships() && final(out)@ == old(out)@,
{
    let dir = if draw.2 % 2 == 0 {
        Direction::Horizontal
    } else {
        Direction::Vertical
    };
    if place_chosen(myboard, player, ship_size, (draw.0, draw.1), dir, out) {
        (true, 0)
    } else {
        (false, retries + 1)
    }
}

/// Places ships at random on the board of the player who was added last,
/// by trial: for each size from the smallest to the largest a cell and a
/// direction are drawn until the ship can be placed there. After
/// [`MAX_RETRIES`] trials in a row without a ship the placing gives up,
/// and a warning is noted.
///
/// Nothing is done, and `false` returned, where no player has been given
/// or the game has no board.
pub fn handle_random_retry(myboard: &mut GameData, mystate: &mut Vec<StateCreate>, out: &mut Vec<Notice>) -> (r: bool)
    requires
        old(myboard).wf(),
    ensures
        final(myboard).wf(),
        final(mystate)@ == old(mystate)@,
        r == (old(mystate)@.contains(StateCreate::StatePlayer) && old(myboard)@.boards.len() > 0),
        !r ==> final(myboard)@ == old(myboard)@,
        !old(mystate)@.contains(StateCreate::StatePlayer) ==> final(out)@ == old(out)@.push(
            Notice::NoPlayerUnderCreation,
        ),
        old(mystate)@.contains(StateCreate::StatePlayer) && !r ==> final(out)@ == old(out)@,
        r ==> {
            &&& final(myboard)@ == (GameView { boards: final(myboard)@.boards, ..old(myboard)@ })
            &&& final(myboard)@.boards.len() == old(myboard)@.boards.len()
            &&& final(myboard)@.boards.drop_last() == old(myboard)@.boards.drop_last()
            &&& final(myboard)@.boards.last().name() == old(myboard)@.boards.last().name()
            &&& final(myboard)@.boards.last().get_playernum() == old(myboard)@.boards.last().get_playernum()
            &&& old(out)@.len() <= final(out)@.len()
            &&& final(out)@.subrange(0, old(out)@.len() as int) == old(out)@
            &&& trials_done(
                &*old(myboard),
                old(myboard)@.boards.last().ships(),
                final(myboard)@.boards.last().ships(),
                final(out)@.subrange(old(out)@.len() as int, final(out)@.len() as int),
                old(myboard)@.smallestship as int,
                old(myboard)@.largestship as int,
            )
        },
{
    if !has_state(mystate, StateCreate::StatePlayer) {
        out.push(Notice::NoPlayerUnderCreation);
        return false;
    }
    let (small, large) = myboard.get_shipsizes();
    let ghost start_out = out@;
    match myboard.boards_pop_last() {
        None => false,
        Some(popped) => {
            let mut myplayer = popped;
            let ghost before = myplayer.ships();
            assert(out@.subrange(start_out.len() as int, out@.len() as int) == Seq::<Notice>::empty());
            assert(myplayer.ships().subrange(0, before.len() as int) == before);
            // The number of ships that have been placed.
            let mut placed: usize = 0;
            let mut retries: usize = 0;
            let wanted: usize = large - small + 1;
            while placed < wanted && retries < MAX_RETRIES
                invariant
                    2 <= small <= large <= usize::MAX,
                    wanted == large - small + 1,
                    placed <= wanted,
                    retries <= MAX_RETRIES,
                    old(myboard)@.boards.len() > 0,
                    large == old(myboard)@.largestship,
                    small == old(myboard)@.smallestship,
                    myboard@ == (GameView { boards: old(myboard)@.boards.drop_last(), ..old(myboard)@ }),
                    myboard.wf(),
                    myplayer.wf(),
                    myplayer.name() == old(myboard)@.boards.last().name(),
                    myplayer.get_playernum() == old(myboard)@.boards.last().get_playernum(),
                    before == old(myboard)@.boards.last().ships(),
                    start_out == old(out)@,
                    out@.len() == start_out.len() + placed,
                    out@.subrange(0, start_out.len() as int) == start_out,
                    myplayer.ships().len() == before.len() + placed,
                    myplayer.ships().subrange(0, before.len() as int) == before,
                    forall|j: int|
                        0 <= j < placed ==> {
                            &&& (#[trigger] myplayer.ships()[before.len() + j]).ship_id() == small + j
                            &&& myboard.on_grid(
                                myplayer.ships()[before.len() + j].start().0 as int,
                                myplayer.ships()[before.len() + j].start().1 as int,
                            )
                            &&& myboard.on_grid(
                                myplayer.ships()[before.len() + j].end().0 as int,
                                myplayer.ships()[before.len() + j].end().1 as int,
                            )
                            &&& out@[start_out.len() + j] == Notice::ShipAdded {
                                size: (small + j) as usize,
                                col: myplayer.ships()[before.len() + j].start().0,
                                row: myplayer.ships()[before.len() + j].start().1,
                            }
                        },
                decreases wanted - placed, MAX_RETRIES - retries,
            {
                let ghost ships_then = myplayer.ships();
                let ghost out_then = out@;
                let ship_size: usize = small + placed;
                let draw = draw_trial(myboard);
                let (added, retries_after) = retry_step(myboard, &mut myplayer, ship_size, draw, retries, out);
                retries = retries_after;
                if added {
                    proof {
                        let ships_now = myplayer.ships();
                        let ship = ships_now[ships_now.len() - 1];
                        assert(ship.is_placed(ship_size, (draw.0, draw.1), drawn_direction(draw.2)));
                        assert(myboard.fits(ship_size, (draw.0, draw.1), drawn_direction(draw.2)));
                        assert forall|i: int| 0 <= i < ships_then.len() implies ships_now[i] == ships_then[i] by {
                            assert(ships_now.drop_last()[i] == ships_now[i]);
                        }
                        assert(ships_now.subrange(0, before.len() as int) =~= before) by {
                            assert forall|i: int| 0 <= i < before.len() implies ships_now[i] == before[i] by {
                                assert(ships_then.subrange(0, before.len() as int)[i] == ships_then[i]);
                            }
                        }
                        assert(out@.subrange(0, start_out.len() as int) =~= start_out) by {
                            assert forall|i: int| 0 <= i < start_out.len() implies out@[i] == start_out[i] by {
                                assert(out_then.subrange(0, start_out.len() as int)[i] == out_then[i]);
                            }
                        }
                    }
                    placed += 1;
                }
            }
            if placed < wanted {
                out.push(Notice::PlacementGaveUp);
            }
            proof {
                let notes = out@.subrange(start_out.len() as int, out@.len() as int);
                let after = myplayer.ships();
                let rest = after.subrange(before.len() as int, after.len() as int);
                assert forall|k: int| 0 <= k < rest.len() implies {
                    &&& old(myboard).on_grid((#[trigger] rest[k]).start().0 as int, rest[k].start().1 as int)
                    &&& old(myboard).on_grid(rest[k].end().0 as int, rest[k].end().1 as int)
                } by {
                    assert(rest[k] == after[before.len() + k]);
                }
                assert forall|j: int| 0 <= j < placed implies {
                    &&& (#[trigger] after[before.len() + j]).ship_id() == small + j
                    &&& notes[j] == Notice::ShipAdded {
                        size: (small + j) as usize,
                        col: after[before.len() + j].start().0,
                        row: after[before.len() + j].start().1,
                    }
                } by {
                    assert(notes[j] == out@[start_out.len() + j]);
                }
                assert(out@.subrange(0, start_out.len() as int) =~= start_out);
            }
            myboard.boards_add(myplayer);
            proof {
                let old_boards = old(myboard)@.boards;
                assert(myboard@.boards.drop_last() == old_boards.drop_last());
            }
            true
        },
    }
}

} // verus!
