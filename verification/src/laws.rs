//! What holds of the engine as a whole.

use vstd::prelude::*;
use vstd::seq_lib::*;
use crate::board::{
    admits, cell, has_ship_id, hits_ship, in_span, lemma_overlaps_symmetric, lemma_same_ship, placement_error,
    segment_end, ships_valid, with_ship, GameData, PlayBoard, ShipBoundingBox,
};
use crate::enums::{Direction, PlacementError};
use crate::file::{cell_of, row_of, row_text};
use crate::grid::{is_painting, lemma_painted_covered, lemma_painted_source, painted, value_at};
use crate::rebuild::{
    group_ok, is_group, is_line_of, malformed_at, rebuilt_from, shows_ship, span_admissible, unplaceable_at,
};
use crate::utils::{
    all_digits, decimal_digits, digit_char, digits_value, drop_spaces, fields, is_digit, pieces, skip_spaces,
    trimmed, unsigned_part, unsigned_value,
};

verus! {

/// No ship is made whose last cell falls off the grid.
pub proof fn lemma_off_grid_refused(
    length: usize,
    start: (usize, usize),
    direction: Direction,
    board: &GameData,
    ships: Seq<ShipBoundingBox>,
)
    requires
        !board.on_grid(segment_end(length, start, direction).0, segment_end(length, start, direction).1),
    ensures
        placement_error(length, start, direction, board, ships) == Some(PlacementError::OutOfBounds),
{
}

/// No ship is made with an identifier that the player uses, wherever it would lie.
pub proof fn lemma_duplicate_id_refused(
    length: usize,
    start: (usize, usize),
    direction: Direction,
    board: &GameData,
    ships: Seq<ShipBoundingBox>,
)
    requires
        has_ship_id(ships, length),
    ensures
        placement_error(length, start, direction, board, ships) is Some,
{
}

/// No two ships of a sound player board occupy the same cell.
pub proof fn lemma_no_shared_cell(player: &PlayBoard, i: int, j: int, col: int, row: int)
    requires
        player.wf(),
        0 <= i < player.ships().len(),
        0 <= j < player.ships().len(),
        i != j,
    ensures
        !(player.ships()[i].covers(col, row) && player.ships()[j].covers(col, row)),
{
    let ships = player.ships();
    if ships[i].covers(col, row) && ships[j].covers(col, row) {
        assert(in_span(cell(ships[i].start()), cell(ships[i].end()), col, row));
        assert(ships[i].shares_cell(&ships[j]));
        assert(ships[j].shares_cell(&ships[i]));
        if i < j {
            assert(!ships[i].shares_cell(&ships[j]));
        } else {
            assert(!ships[j].shares_cell(&ships[i]));
        }
    }
}

/// Offering a ship to a player keeps the ships sound.
pub proof fn lemma_with_ship_valid(ships: Seq<ShipBoundingBox>, ship: ShipBoundingBox)
    requires
        ships_valid(ships),
        ship.wf(),
    ensures
        ships_valid(with_ship(ships, &ship)),
{
    if admits(ships, &ship) {
        let after = ships.push(ship);
        assert forall|i: int, j: int|
            #![trigger after[i], after[j]]
            0 <= i < j < after.len() implies after[i].ship_id() != after[j].ship_id() && !after[i].shares_cell(
            &after[j],
        ) by {
            if j == ships.len() {
                assert(after[i] == ships[i]);
                lemma_overlaps_symmetric(ships[i], ship);
            }
        }
    }
}

/// Whether a ship hits one of `ships` with `extra` behind them: it hits one
/// of `ships`, or `extra`.
proof fn lemma_hits_pushed(ships: Seq<ShipBoundingBox>, extra: ShipBoundingBox, probe: ShipBoundingBox)
    ensures
        hits_ship(ships.push(extra), &probe) <==> hits_ship(ships, &probe) || extra.shares_cell(&probe),
        forall|id: usize| has_ship_id(ships.push(extra), id) <==> has_ship_id(ships, id) || extra.ship_id() == id,
{
    let after = ships.push(extra);
    if hits_ship(after, &probe) {
        let i = choose|i: int| 0 <= i < after.len() && (#[trigger] after[i]).shares_cell(&probe);
        if i < ships.len() {
            assert(ships[i].shares_cell(&probe));
        }
    }
    if hits_ship(ships, &probe) {
        let i = choose|i: int| 0 <= i < ships.len() && (#[trigger] ships[i]).shares_cell(&probe);
        assert(after[i].shares_cell(&probe));
    }
    if extra.shares_cell(&probe) {
        assert(after[ships.len() as int].shares_cell(&probe));
    }
    assert forall|id: usize| has_ship_id(after, id) <==> has_ship_id(ships, id) || extra.ship_id() == id by {
        if has_ship_id(after, id) {
            let i = choose|i: int| 0 <= i < after.len() && (#[trigger] after[i]).ship_id() == id;
            if i < ships.len() {
                assert(ships[i].ship_id() == id);
            }
        }
        if has_ship_id(ships, id) {
            let i = choose|i: int| 0 <= i < ships.len() && (#[trigger] ships[i]).ship_id() == id;
            assert(after[i].ship_id() == id);
        }
        if extra.ship_id() == id {
            assert(after[ships.len() as int].ship_id() == id);
        }
    }
}

/// Two ships that keep clear of each other and differ in their identifiers
/// can be offered to a player in either order: each is taken in one order
/// exactly if it is taken in the other, and every later check for an overlap
/// or for an identifier in use gives the same answer.
pub proof fn lemma_insertion_order(
    ships: Seq<ShipBoundingBox>,
    a: ShipBoundingBox,
    b: ShipBoundingBox,
    probe: ShipBoundingBox,
)
    requires
        !a.shares_cell(&b),
        a.ship_id() != b.ship_id(),
    ensures
        admits(ships, &a) == admits(with_ship(ships, &b), &a),
        admits(ships, &b) == admits(with_ship(ships, &a), &b),
        hits_ship(with_ship(with_ship(ships, &a), &b), &probe) == hits_ship(
            with_ship(with_ship(ships, &b), &a),
            &probe,
        ),
        has_ship_id(with_ship(with_ship(ships, &a), &b), probe.ship_id()) == has_ship_id(
            with_ship(with_ship(ships, &b), &a),
            probe.ship_id(),
        ),
{
    lemma_overlaps_symmetric(a, b);
    lemma_hits_pushed(ships, a, b);
    lemma_hits_pushed(ships, b, a);
    lemma_hits_pushed(ships, a, probe);
    lemma_hits_pushed(ships, b, probe);
    lemma_hits_pushed(ships.push(a), b, probe);
    lemma_hits_pushed(ships.push(b), a, probe);
    let id = probe.ship_id();
    assert(has_ship_id(ships.push(a), id) <==> has_ship_id(ships, id) || a.ship_id() == id);
    assert(has_ship_id(ships.push(b), id) <==> has_ship_id(ships, id) || b.ship_id() == id);
    assert(has_ship_id(ships.push(a).push(b), id) <==> has_ship_id(ships.push(a), id) || b.ship_id() == id);
    assert(has_ship_id(ships.push(b).push(a), id) <==> has_ship_id(ships.push(b), id) || a.ship_id() == id);
}

/// The cells of one identifier are the cells of at most one segment.
pub proof fn lemma_group_unique(
    grid: Seq<Seq<usize>>,
    id: usize,
    lo1: (int, int),
    hi1: (int, int),
    lo2: (int, int),
    hi2: (int, int),
)
    requires
        is_group(grid, id, lo1, hi1),
        is_group(grid, id, lo2, hi2),
    ensures
        lo1 == lo2,
        hi1 == hi2,
{
    assert(in_span(lo1, hi1, lo1.0, lo1.1));
    assert(value_at(grid, lo1.0, lo1.1) == id);
    assert(in_span(lo1, hi1, hi1.0, hi1.1));
    assert(value_at(grid, hi1.0, hi1.1) == id);
    assert(in_span(lo2, hi2, lo2.0, lo2.1));
    assert(value_at(grid, lo2.0, lo2.1) == id);
    assert(in_span(lo2, hi2, hi2.0, hi2.1));
    assert(value_at(grid, hi2.0, hi2.1) == id);
}

/// The ships lie on a grid of `cols` columns and `rows` rows.
pub open spec fn fleet_fits(ships: Seq<ShipBoundingBox>, cols: int, rows: int) -> bool {
    forall|i: int| 0 <= i < ships.len() ==> (#[trigger] ships[i]).end().0 < cols && ships[i].end().1 < rows
}

/// A grid painted from sound ships shows each of them.
pub proof fn lemma_painting_shows(
    ships: Seq<ShipBoundingBox>,
    grid: Seq<Seq<usize>>,
    cols: int,
    rows: int,
    i: int,
)
    requires
        ships_valid(ships),
        fleet_fits(ships, cols, rows),
        is_painting(grid, ships, cols, rows),
        0 <= i < ships.len(),
    ensures
        shows_ship(grid, &ships[i]),
{
    let ship = ships[i];
    let id = ship.ship_id();
    assert(ship.wf());
    assert forall|col: int, row: int| #[trigger] value_at(grid, col, row) == id <==> in_span(
        cell(ship.start()),
        cell(ship.end()),
        col,
        row,
    ) by {
        if in_span(cell(ship.start()), cell(ship.end()), col, row) {
            lemma_painted_covered(ships, i, col, row);
        }
        if value_at(grid, col, row) == id {
            assert(0 <= row < rows && 0 <= col < cols);
            let j = lemma_painted_source(ships, col, row);
            if j < i {
                assert(ships[j].ship_id() != ships[i].ship_id());
            }
            if i < j {
                assert(ships[i].ship_id() != ships[j].ship_id());
            }
        }
    }
}

/// Round trip. Where the ships of a player are flattened into a grid and
/// ships are read back from that grid, the ships read are the ships
/// flattened: same identifiers, same first and last cells, and as many.
pub proof fn lemma_round_trip(
    ships: Seq<ShipBoundingBox>,
    grid: Seq<Seq<usize>>,
    cols: int,
    rows: int,
    rebuilt: Seq<ShipBoundingBox>,
)
    requires
        ships_valid(ships),
        fleet_fits(ships, cols, rows),
        is_painting(grid, ships, cols, rows),
        rebuilt_from(grid, rebuilt),
    ensures
        forall|i: int| 0 <= i < ships.len() ==> rebuilt.contains(#[trigger] ships[i]),
        forall|k: int| 0 <= k < rebuilt.len() ==> ships.contains(#[trigger] rebuilt[k]),
        rebuilt.len() == ships.len(),
{
    assert forall|i: int| 0 <= i < ships.len() implies rebuilt.contains(#[trigger] ships[i]) by {
        let ship = ships[i];
        lemma_painting_shows(ships, grid, cols, rows, i);
        assert(in_span(cell(ship.start()), cell(ship.end()), ship.start().0 as int, ship.start().1 as int));
        assert(value_at(grid, ship.start().0 as int, ship.start().1 as int) == ship.ship_id());
        assert(has_ship_id(rebuilt, ship.ship_id()));
        let k = choose|k: int| 0 <= k < rebuilt.len() && (#[trigger] rebuilt[k]).ship_id() == ship.ship_id();
        assert(shows_ship(grid, &rebuilt[k]));
        lemma_group_unique(
            grid,
            ship.ship_id(),
            cell(ship.start()),
            cell(ship.end()),
            cell(rebuilt[k].start()),
            cell(rebuilt[k].end()),
        );
        lemma_same_ship(ship, rebuilt[k]);
    }
    assert forall|k: int| 0 <= k < rebuilt.len() implies ships.contains(#[trigger] rebuilt[k]) by {
        let ship = rebuilt[k];
        assert(shows_ship(grid, &ship));
        assert(in_span(cell(ship.start()), cell(ship.end()), ship.start().0 as int, ship.start().1 as int));
        let col = ship.start().0 as int;
        let row = ship.start().1 as int;
        assert(value_at(grid, col, row) == ship.ship_id());
        assert(0 <= row < rows && 0 <= col < cols);
        let i = lemma_painted_source(ships, col, row);
        lemma_painting_shows(ships, grid, cols, rows, i);
        lemma_group_unique(
            grid,
            ship.ship_id(),
            cell(ship.start()),
            cell(ship.end()),
            cell(ships[i].start()),
            cell(ships[i].end()),
        );
        lemma_same_ship(ship, ships[i]);
    }
    // Neither list holds a ship twice, so the two have the same length.
    assert(ships.no_duplicates()) by {
        assert forall|i: int, j: int| 0 <= i < ships.len() && 0 <= j < ships.len() && i != j implies ships[i]
            != ships[j] by {
            if i < j {
                assert(ships[i].ship_id() != ships[j].ship_id());
            } else {
                assert(ships[j].ship_id() != ships[i].ship_id());
            }
        }
    }
    assert(rebuilt.no_duplicates()) by {
        assert forall|i: int, j: int|
            0 <= i < rebuilt.len() && 0 <= j < rebuilt.len() && i != j implies rebuilt[i] != rebuilt[j] by {
            if i < j {
                assert(crate::rebuild::comes_before(
                    rebuilt[i].start().0 as int,
                    rebuilt[i].start().1 as int,
                    rebuilt[j].start().0 as int,
                    rebuilt[j].start().1 as int,
                ));
            } else {
                assert(crate::rebuild::comes_before(
                    rebuilt[j].start().0 as int,
                    rebuilt[j].start().1 as int,
                    rebuilt[i].start().0 as int,
                    rebuilt[i].start().1 as int,
                ));
            }
        }
    }
    ships.unique_seq_to_set();
    rebuilt.unique_seq_to_set();
    assert(ships.to_set() =~= rebuilt.to_set());
}

/// A grid painted from sound ships can be read back: no cell of it is
/// malformed, and a player without ships on a board of the grid's
/// dimensions can have every ship that it shows.
pub proof fn lemma_painting_reads_back(
    ships: Seq<ShipBoundingBox>,
    grid: Seq<Seq<usize>>,
    board: &GameData,
    col: int,
    row: int,
)
    requires
        ships_valid(ships),
        fleet_fits(ships, board@.cols as int, board@.rows as int),
        is_painting(grid, ships, board@.cols as int, board@.rows as int),
    ensures
        !malformed_at(grid, col, row),
        !unplaceable_at(grid, board, Seq::<ShipBoundingBox>::empty(), col, row),
{
    let id = value_at(grid, col, row);
    if id != 0 {
        let i = lemma_painted_source(ships, col, row);
        lemma_painting_shows(ships, grid, board@.cols as int, board@.rows as int, i);
        let lo = cell(ships[i].start());
        let hi = cell(ships[i].end());
        assert(is_group(grid, id, lo, hi) && is_line_of(id, lo, hi));
        assert(group_ok(grid, id));
        assert forall|lo2: (int, int), hi2: (int, int)| #[trigger] is_group(grid, id, lo2, hi2) implies span_admissible(
            board,
            Seq::<ShipBoundingBox>::empty(),
            id,
            lo2,
            hi2,
        ) by {
            lemma_group_unique(grid, id, lo, hi, lo2, hi2);
            assert(ships[i].wf());
        }
    }
}

/// The decimal notation of a number is one digit or more, and stands for the number.
pub proof fn lemma_decimal_digits(n: nat)
    ensures
        decimal_digits(n).len() >= 1,
        all_digits(decimal_digits(n)),
        digits_value(decimal_digits(n)) == n,
    decreases n,
{
    let text = decimal_digits(n);
    if n < 10 {
        assert(text.drop_last() =~= Seq::<char>::empty());
        assert(text.last() == digit_char(n));
        assert(digits_value(Seq::<char>::empty()) == 0);
    } else {
        lemma_decimal_digits(n / 10);
        let front = decimal_digits(n / 10);
        assert(text.drop_last() =~= front);
        assert(text.last() == digit_char(n % 10));
        assert forall|i: int| 0 <= i < text.len() implies is_digit(#[trigger] text[i]) by {
            if i < front.len() {
                assert(text[i] == front[i]);
            }
        }
    }
}

/// A number that is written in decimal notation reads back as itself,
/// with or without white space around it.
pub proof fn lemma_decimal_reads_back(n: usize)
    ensures
        unsigned_value(decimal_digits(n as nat)) == Some(n),
        cell_of(decimal_digits(n as nat)) == n,
        !decimal_digits(n as nat).contains(','),
{
    let text = decimal_digits(n as nat);
    lemma_decimal_digits(n as nat);
    assert(is_digit(text[0]) && is_digit(text.last()));
    assert(unsigned_part(text) == text);
    assert(skip_spaces(text) == text);
    assert(drop_spaces(text) == text);
    assert(trimmed(text) == text);
    if text.contains(',') {
        let i = choose|i: int| 0 <= i < text.len() && text[i] == ',';
        assert(is_digit(text[i]));
    }
}

/// A text without the separator is one field.
pub proof fn lemma_fields_plain(text: Seq<char>, sep: char)
    requires
        !text.contains(sep),
    ensures
        fields(text, sep) == seq![text],
    decreases text.len(),
{
    if text.len() == 0 {
        assert(text =~= Seq::<char>::empty());
    } else {
        let front = text.drop_last();
        assert(text[text.len() - 1] != sep);
        assert forall|i: int| 0 <= i < front.len() implies front[i] != sep by {
            assert(front[i] == text[i]);
        }
        lemma_fields_plain(front, sep);
        assert(front.push(text.last()) =~= text);
        assert(fields(text, sep) =~= seq![text]);
    }
}

/// A text behind a separator is a field of its own, where it holds no separator.
pub proof fn lemma_fields_append(front: Seq<char>, last: Seq<char>, sep: char)
    requires
        !last.contains(sep),
    ensures
        fields(front + seq![sep] + last, sep) == fields(front, sep).push(last),
    decreases last.len(),
{
    let text = front + seq![sep] + last;
    if last.len() == 0 {
        assert(text.drop_last() =~= front);
        assert(text.last() == sep);
        assert(last =~= Seq::<char>::empty());
    } else {
        let shorter = last.drop_last();
        assert(last[last.len() - 1] != sep);
        assert forall|i: int| 0 <= i < shorter.len() implies shorter[i] != sep by {
            assert(shorter[i] == last[i]);
        }
        lemma_fields_append(front, shorter, sep);
        assert(text.drop_last() =~= front + seq![sep] + shorter);
        assert(text.last() == last.last());
        assert(shorter.push(last.last()) =~= last);
        let before = fields(front, sep).push(shorter);
        assert(before.drop_last() =~= fields(front, sep));
    }
}

/// The row of a grid that is written as text reads back as it was.
pub proof fn lemma_row_reads_back(cells: Seq<usize>)
    requires
        cells.len() >= 1,
    ensures
        row_of(row_text(cells)) == cells,
    decreases cells.len(),
{
    let last = decimal_digits(cells.last() as nat);
    lemma_decimal_reads_back(cells.last());
    if cells.len() == 1 {
        lemma_fields_plain(last, ',');
        assert(row_of(row_text(cells)) =~= cells);
    } else {
        let front = cells.drop_last();
        lemma_row_reads_back(front);
        lemma_fields_append(row_text(front), last, ',');
        let parts = pieces(row_text(cells));
        assert(parts == pieces(row_text(front)).push(last));
        assert forall|i: int| 0 <= i < cells.len() implies row_of(row_text(cells))[i] == cells[i] by {
            if i < front.len() {
                assert(parts[i] == pieces(row_text(front))[i]);
                assert(row_of(row_text(front))[i] == front[i]);
                assert(front[i] == cells[i]);
            }
        }
        assert(row_of(row_text(cells)) =~= cells);
    }
}

} // verus!
