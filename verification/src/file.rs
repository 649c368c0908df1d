//! The save file, line by line.
//!
//! Three lines give the number of rows, the number of columns and the
//! number of players. Then each player has a line with the name and one
//! line for each row of the grid: the cells of the row, separated by
//! commas. Reading and writing the file itself is left to the caller, who
//! hands over and takes back the lines.

use vstd::prelude::*;
use vstd::string::*;
use crate::board::{GameData, GameView, PlayBoard, ShipBoundingBox};
use crate::enums::{LoadError, RowColErr};
use crate::grid::{create_my_board_from_player, grid_view, is_painting, painted, value_at};
use crate::rebuild::{
    all_on_grid, first_malformed, first_unplaceable, grid_sound, malformed_at, process_ships, rebuilt_from,
};
use crate::utils::{
    decimal, decimal_digits, parse_number, parse_size, pieces, size_of_text, split_commas, string_of, then_number, to_chars,
    trim, trimmed, unsigned_value, views, with_number, with_text,
};

verus! {

/// The lines as sequences of characters.
pub open spec fn lines_view(lines: &Vec<String>) -> Seq<Seq<char>> {
    Seq::new(lines@.len(), |i: int| lines@[i]@)
}

/// What a piece of a row stands for: the number that it is the decimal
/// notation of, white space at its ends apart, and zero where it is none.
pub open spec fn cell_of(piece: Seq<char>) -> usize {
    match unsigned_value(trimmed(piece)) {
        Some(n) => n,
        None => 0,
    }
}

/// The cells that a line of a grid holds.
pub open spec fn row_of(line: Seq<char>) -> Seq<usize> {
    Seq::new(pieces(line).len(), |i: int| cell_of(pieces(line)[i]))
}

/// The cells that a line of a grid holds.
pub fn parse_row(line: &str) -> (row: Vec<usize>)
    ensures
        row@ == row_of(line@),
{
    let chars = to_chars(line);
    let parts = split_commas(&chars);
    let n: usize = parts.len();
    let mut row: Vec<usize> = Vec::new();
    let mut k: usize = 0;
    while k < n
        invariant
            k <= n == parts@.len(),
            views(parts@) == pieces(line@),
            row@.len() == k,
            forall|j: int| 0 <= j < k ==> row@[j] == cell_of(#[trigger] pieces(line@)[j]),
        decreases n - k,
    {
        let piece = trim(&parts[k]);
        assert(views(parts@)[k as int] == parts@[k as int]@);
        let val: usize = match parse_number(&piece) {
            Some(v) => v,
            None => 0,
        };
        row.push(val);
        k += 1;
    }
    row
}

/// Whether a player cannot have the name `name`: it is empty or holds a comma.
pub open spec fn bad_name(name: Seq<char>) -> bool {
    name.len() == 0 || name.contains(',')
}

/// Whether a player cannot have the name `name`.
pub fn is_bad_name(name: &Vec<char>) -> (r: bool)
    ensures
        r == bad_name(name@),
{
    let n: usize = name.len();
    if n == 0 {
        return true;
    }
    let mut i: usize = 0;
    while i < n
        invariant
            i <= n == name@.len(),
            forall|j: int| 0 <= j < i ==> name@[j] != ',',
        decreases n - i,
    {
        if name[i] == ',' {
            return true;
        }
        i += 1;
    }
    false
}

/// Whether the `r`-th row of a grid that begins with line `from` cannot be
/// read: the lines end before it, or it holds more than `cols` cells.
pub open spec fn row_fault(lines: Seq<Seq<char>>, from: int, cols: int, r: int) -> bool {
    from + r >= lines.len() || row_of(lines[from + r]).len() > cols
}

/// The error for the `r`-th row of the grid of player `player`, which
/// begins with line `from`.
pub open spec fn row_error(lines: Seq<Seq<char>>, from: int, r: int, player: usize) -> LoadError {
    if from + r >= lines.len() {
        LoadError::NotEnoughRows { player: (player + 1) as usize }
    } else {
        LoadError::TooManyColumns { row: (r + 1) as usize, player }
    }
}

/// The grid that the `rows` lines from line `from` on hold.
pub open spec fn grid_lines(lines: Seq<Seq<char>>, from: int, rows: int) -> Seq<Seq<usize>> {
    Seq::new(rows as nat, |r: int| row_of(lines[from + r]))
}

/// Reads the grid of player `player` from the `rows` lines that begin with
/// line `from`. The first row that cannot be read gives the error.
pub fn read_grid(lines: &Vec<String>, from: usize, rows: usize, cols: usize, player: usize) -> (r: Result<
    Vec<Vec<usize>>,
    LoadError,
>)
    requires
        player < usize::MAX,
    ensures
        match r {
            Ok(grid) => {
                &&& forall|k: int|
                    0 <= k < rows ==> !#[trigger] row_fault(lines_view(lines), from as int, cols as int, k)
                &&& grid_view(&grid) == grid_lines(lines_view(lines), from as int, rows as int)
            },
            Err(e) => exists|k: int|
                {
                    &&& 0 <= k < rows
                    &&& #[trigger] row_fault(lines_view(lines), from as int, cols as int, k)
                    &&& forall|j: int|
                        0 <= j < k ==> !#[trigger] row_fault(lines_view(lines), from as int, cols as int, j)
                    &&& e == row_error(lines_view(lines), from as int, k, player)
                },
        },
{
    let ghost text = lines_view(lines);
    let n: usize = lines.len();
    let mut grid: Vec<Vec<usize>> = Vec::new();
    let mut k: usize = 0;
    while k < rows
        invariant
            k <= rows,
            n == lines@.len(),
            player < usize::MAX,
            text == lines_view(lines),
            k > 0 ==> from + k <= n,
            grid@.len() == k,
            forall|j: int| 0 <= j < k ==> !#[trigger] row_fault(text, from as int, cols as int, j),
            forall|j: int| 0 <= j < k ==> (#[trigger] grid@[j])@ == row_of(text[from + j]),
        decreases rows - k,
    {
        if from >= n || n - from <= k {
            assert(row_fault(text, from as int, cols as int, k as int));
            return Err(LoadError::NotEnoughRows { player: player + 1 });
        }
        let row = parse_row(lines[from + k].as_str());
        assert(text[from + k] == lines@[from + k]@);
        if row.len() > cols {
            assert(row_fault(text, from as int, cols as int, k as int));
            return Err(LoadError::TooManyColumns { row: k + 1, player });
        }
        grid.push(row);
        k += 1;
    }
    assert(grid_view(&grid) =~= grid_lines(text, from as int, rows as int));
    Ok(grid)
}

/// The line `from` with a player's name; empty where the lines end before it.
pub open spec fn name_line(lines: Seq<Seq<char>>, from: int) -> Seq<char> {
    if 0 <= from < lines.len() {
        lines[from]
    } else {
        Seq::<char>::empty()
    }
}

/// The part of the lines that describes one player, from the line `from`
/// with the name on, can be read for the game `board`.
pub open spec fn block_ok(lines: Seq<Seq<char>>, from: int, board: &GameData) -> bool {
    &&& !bad_name(trimmed(name_line(lines, from)))
    &&& forall|k: int| 0 <= k < board@.rows ==> !#[trigger] row_fault(lines, from + 1, board@.cols as int, k)
    &&& grid_sound(grid_lines(lines, from + 1, board@.rows as int), board, Seq::<ShipBoundingBox>::empty())
}

/// `e` is the error of the part of the lines that describes the player
/// `number`, from the line `from` on: the first of a bad name, a row that
/// cannot be read, a malformed ship, a ship that cannot be placed.
pub open spec fn block_failure(lines: Seq<Seq<char>>, from: int, board: &GameData, number: usize, e: LoadError) -> bool {
    let grid = grid_lines(lines, from + 1, board@.rows as int);
    if bad_name(trimmed(name_line(lines, from))) {
        e == LoadError::BadPlayerName
    } else if exists|k: int| 0 <= k < board@.rows && #[trigger] row_fault(lines, from + 1, board@.cols as int, k) {
        exists|k: int|
            {
                &&& 0 <= k < board@.rows
                &&& #[trigger] row_fault(lines, from + 1, board@.cols as int, k)
                &&& forall|j: int| 0 <= j < k ==> !#[trigger] row_fault(lines, from + 1, board@.cols as int, j)
                &&& e == row_error(lines, from + 1, k, number)
            }
    } else {
        match e {
            LoadError::ShipMalformed { ship_id } => first_malformed(grid, ship_id),
            LoadError::ShipRejected { ship_id } => {
                &&& forall|col: int, row: int| !#[trigger] malformed_at(grid, col, row)
                &&& first_unplaceable(grid, board, Seq::<ShipBoundingBox>::empty(), ship_id)
            },
            _ => false,
        }
    }
}

/// `player` is the player `number` that the lines from `from` on describe:
/// the name is that of the first line without the white space at its ends,
/// and the ships are those that the grid in the following lines shows.
pub open spec fn is_player_of(
    lines: Seq<Seq<char>>,
    from: int,
    board: &GameData,
    number: usize,
    player: &PlayBoard,
) -> bool {
    &&& player.wf()
    &&& player.name() == trimmed(name_line(lines, from))
    &&& player.get_playernum() == number
    &&& rebuilt_from(grid_lines(lines, from + 1, board@.rows as int), player.ships())
    &&& all_on_grid(board, player.ships())
}

/// Reads the player `number` from the line `from` with the name and the
/// lines of the grid that follow it. Where the lines end before the name,
/// the name is bad.
pub fn read_player(lines: &Vec<String>, from: usize, myboard: &GameData, number: usize) -> (r: Result<
    PlayBoard,
    LoadError,
>)
    requires
        number < usize::MAX,
    ensures
        match r {
            Ok(player) => {
                &&& block_ok(lines_view(lines), from as int, myboard)
                &&& is_player_of(lines_view(lines), from as int, myboard, number, &player)
            },
            Err(e) => {
                &&& !block_ok(lines_view(lines), from as int, myboard)
                &&& block_failure(lines_view(lines), from as int, myboard, number, e)
            },
        },
{
    let ghost text = lines_view(lines);
    let (cols, rows) = myboard.get_col_row();
    let n: usize = lines.len();
    if from >= n {
        assert(trimmed(Seq::<char>::empty()) == Seq::<char>::empty());
        return Err(LoadError::BadPlayerName);
    }
    let name_chars = to_chars(lines[from].as_str());
    let player_name = trim(&name_chars);
    assert(text[from as int] == lines@[from as int]@);
    if is_bad_name(&player_name) {
        return Err(LoadError::BadPlayerName);
    }
    let grid = match read_grid(lines, from + 1, rows, cols, number) {
        Ok(grid) => grid,
        Err(e) => {
            return Err(e);
        },
    };
    let mut player = PlayBoard::default();
    player.set_playername(string_of(&player_name));
    player.set_playernum(number);
    assert(player.ships() == Seq::<ShipBoundingBox>::empty());
    match process_ships(&grid, &mut player, myboard) {
        Ok(_) => {
            assert(player.ships().subrange(0, player.ships().len() as int) == player.ships());
            Ok(player)
        },
        Err(e) => Err(e),
    }
}

/// The line on which the part for player `b` begins, where the players
/// begin on line `first` and a grid has `rows` rows.
pub open spec fn block_start(first: int, rows: int, b: int) -> int {
    first + b * (rows + 1)
}

/// The lines from `first` on describe exactly the players `added`, each of
/// whom can be read for the game `board`: no player where there is no such
/// line.
pub open spec fn players_loaded(lines: Seq<Seq<char>>, first: int, board: &GameData, added: Seq<PlayBoard>) -> bool {
    &&& if lines.len() <= first {
        added.len() == 0
    } else {
        lines.len() == block_start(first, board@.rows as int, added.len() as int)
    }
    &&& forall|b: int|
        0 <= b < added.len() ==> {
            &&& block_ok(lines, #[trigger] block_start(first, board@.rows as int, b), board)
            &&& is_player_of(lines, block_start(first, board@.rows as int, b), board, b as usize, &added[b])
        }
}

/// `e` is the error of the first player, among those that the lines from
/// `first` on describe, who cannot be read for the game `board`.
pub open spec fn players_failure(lines: Seq<Seq<char>>, first: int, board: &GameData, e: LoadError) -> bool {
    exists|b: int|
        {
            &&& 0 <= b
            &&& #[trigger] block_start(first, board@.rows as int, b) < lines.len()
            &&& !block_ok(lines, block_start(first, board@.rows as int, b), board)
            &&& block_failure(lines, block_start(first, board@.rows as int, b), board, b as usize, e)
            &&& forall|j: int|
                0 <= j < b ==> block_ok(lines, #[trigger] block_start(first, board@.rows as int, j), board)
        }
}

proof fn lemma_block_step(first: int, rows: int, b: int)
    requires
        0 <= first,
        0 <= rows,
        0 <= b,
    ensures
        block_start(first, rows, b + 1) == block_start(first, rows, b) + rows + 1,
        block_start(first, rows, b) >= first + b,
        block_start(first, rows, 0) == first,
{
    assert((b + 1) * (rows + 1) == b * (rows + 1) + rows + 1) by (nonlinear_arith);
    assert(b * (rows + 1) >= b) by (nonlinear_arith)
        requires
            0 <= rows,
            0 <= b,
    ;
}

/// Reads the players that the lines from line `first` on describe and
/// gives them to the game, behind the boards that it has. Each player takes
/// one line with the name and one line for each row of the grid; players
/// are numbered from zero.
///
/// Nothing is given to the game unless every player can be read; the error
/// is that of the first who cannot.
pub fn load_player_game_data(lines: &Vec<String>, first: usize, myboard: &mut GameData) -> (r: Result<(), LoadError>)
    requires
        old(myboard).wf(),
    ensures
        final(myboard).wf(),
        match r {
            Ok(_) => {
                &&& final(myboard)@ == (GameView { boards: final(myboard)@.boards, ..old(myboard)@ })
                &&& old(myboard)@.boards.len() <= final(myboard)@.boards.len()
                &&& final(myboard)@.boards.subrange(0, old(myboard)@.boards.len() as int) == old(myboard)@.boards
                &&& players_loaded(
                    lines_view(lines),
                    first as int,
                    &*old(myboard),
                    final(myboard)@.boards.subrange(
                        old(myboard)@.boards.len() as int,
                        final(myboard)@.boards.len() as int,
                    ),
                )
            },
            Err(e) => {
                &&& final(myboard)@ == old(myboard)@
                &&& players_failure(lines_view(lines), first as int, &*old(myboard), e)
            },
        },
{
    let ghost text = lines_view(lines);
    let ghost rows_i = myboard@.rows as int;
    let n: usize = lines.len();
    let (cols, rows) = myboard.get_col_row();
    let mut players: Vec<PlayBoard> = Vec::new();
    let mut from: usize = first;
    let mut number: usize = 0;
    proof {
        lemma_block_step(first as int, rows_i, 0);
    }
    while from < n
        invariant
            first <= from,
            n == lines@.len(),
            from <= n || number == 0,
            text == lines_view(lines),
            *myboard == *old(myboard),
            myboard.wf(),
            rows == myboard@.rows,
            rows_i == rows as int,
            from == block_start(first as int, rows_i, number as int),
            players@.len() == number,
            forall|b: int|
                0 <= b < number ==> {
                    &&& block_ok(text, #[trigger] block_start(first as int, rows_i, b), &*myboard)
                    &&& is_player_of(text, block_start(first as int, rows_i, b), &*myboard, b as usize, &players@[b])
                },
        decreases n - from,
    {
        proof {
            lemma_block_step(first as int, rows_i, number as int);
        }
        let player = match read_player(lines, from, myboard, number) {
            Ok(player) => player,
            Err(e) => {
                return Err(e);
            },
        };
        proof {
            // The last row of the grid is there, so the lines reach to the end of this part.
            assert(!row_fault(text, from + 1, myboard@.cols as int, rows - 1));
        }
        players.push(player);
        from = from + rows + 1;
        number += 1;
    }
    let ghost added = players@;
    let ghost before = myboard@.boards;
    let count: usize = players.len();
    let mut moved: usize = 0;
    while moved < count
        invariant
            moved <= count == added.len(),
            players@ == added.subrange(moved as int, count as int),
            myboard@ == (GameView { boards: before + added.subrange(0, moved as int), ..old(myboard)@ }),
            before == old(myboard)@.boards,
        decreases count - moved,
    {
        let player = players.remove(0);
        myboard.boards_add(player);
        proof {
            assert(player == added[moved as int]);
            assert(added.subrange(0, moved + 1) == added.subrange(0, moved as int).push(player));
            assert(before + added.subrange(0, moved + 1) == (before + added.subrange(0, moved as int)).push(player));
        }
        moved += 1;
    }
    proof {
        let after = myboard@.boards;
        assert(added.subrange(0, count as int) == added);
        assert(after.subrange(0, before.len() as int) == before);
        assert(after.subrange(before.len() as int, after.len() as int) == added);
        assert forall|i: int| 0 <= i < after.len() implies (#[trigger] after[i]).wf() by {
            if i >= before.len() {
                let b = i - before.len();
                assert(is_player_of(text, block_start(first as int, rows_i, b), &*old(myboard), b as usize, &added[b]));
            }
        }
    }
    Ok(())
}

/// Text of the error for a header line that holds no size.
pub open spec fn header_error_text(e: RowColErr) -> Seq<char> {
    match e {
        RowColErr::TooSmall => "Error: Failed to load player correctly, too small."@,
        RowColErr::TooBig => "Error: Failed to load player correctly, too big."@,
        RowColErr::Failed => "Error: Failed to load player correctly, failed."@,
    }
}

/// Text of the error for the header line `line` with the number
/// `line_num`, counted from zero; `None` where the line is in order. An
/// empty line is an error, a line beyond the third is, and so is one that
/// holds no size once the white space at its ends is taken off.
pub open spec fn header_failure(line: Seq<char>, line_num: usize) -> Option<Seq<char>> {
    if line.len() == 0 {
        Some("Error: Empty line at "@ + decimal_digits(line_num as nat))
    } else if line_num > 2 {
        Some("Went too far, not sure why."@)
    } else {
        match size_of_text(trimmed(line)) {
            Err(e) => Some(header_error_text(e)),
            Ok(_) => None,
        }
    }
}

/// The game with the size `num` of header line `line_num` taken in: the
/// number of rows, the number of columns, the number of players.
pub open spec fn with_header(game: GameView, line_num: usize, num: usize) -> GameView {
    if line_num == 0 {
        GameView { rows: num, ..game }
    } else if line_num == 1 {
        GameView { cols: num, ..game }
    } else {
        GameView { player_count: num, ..game }
    }
}

/// Takes in one of the three header lines of a save file: the number of
/// rows on line zero, the number of columns on line one, the number of
/// players on line two.
pub fn load_file_game_data(line: &str, myboard: &mut GameData, line_num: usize) -> (r: Result<(), String>)
    ensures
        old(myboard).wf() ==> final(myboard).wf(),
        match r {
            Ok(_) => {
                &&& header_failure(line@, line_num) is None
                &&& size_of_text(trimmed(line@)) matches Ok(num) && final(myboard)@ == with_header(
                    old(myboard)@,
                    line_num,
                    num,
                )
            },
            Err(msg) => {
                &&& final(myboard)@ == old(myboard)@
                &&& header_failure(line@, line_num) == Some(msg@)
            },
        },
{
    let chars = to_chars(line);
    if chars.len() == 0 {
        return Err(string_of(&with_number("Error: Empty line at ", line_num)));
    }
    if line_num > 2 {
        return Err(String::from_str("Went too far, not sure why."));
    }
    match parse_size(&trim(&chars)) {
        Ok(num) => {
            if line_num == 0 {
                let set = myboard.set_row_or_col(num, true);
                assert(set is Ok);
            } else if line_num == 1 {
                let set = myboard.set_row_or_col(num, false);
                assert(set is Ok);
            } else {
                myboard.set_playercount(num);
            }
            Ok(())
        },
        Err(err) => {
            let fail_str = match err {
                RowColErr::TooSmall => String::from_str("Error: Failed to load player correctly, too small."),
                RowColErr::TooBig => String::from_str("Error: Failed to load player correctly, too big."),
                RowColErr::Failed => String::from_str("Error: Failed to load player correctly, failed."),
            };
            Err(fail_str)
        },
    }
}

/// Text of a load error.
pub open spec fn load_error_text(e: LoadError) -> Seq<char> {
    match e {
        LoadError::BadPlayerName => "Error: Inappropriate or blank player name."@,
        LoadError::TooManyColumns { row, player } => "Error: Too many columns in row "@ + decimal_digits(
            row as nat,
        ) + " of player "@ + decimal_digits(player as nat),
        LoadError::NotEnoughRows { player } => "Error: Not enough rows for player "@ + decimal_digits(player as nat),
        LoadError::ShipMalformed { ship_id } => "Error: Ship "@ + decimal_digits(ship_id as nat)
            + " is not properly sized or has gaps"@,
        LoadError::ShipRejected { ship_id } => "Error: Ship "@ + decimal_digits(ship_id as nat)
            + " cannot be placed on the board"@,
    }
}

/// The text of a load error, for the user.
pub fn load_error_message(e: &LoadError) -> (r: String)
    ensures
        r@ == load_error_text(*e),
{
    match e {
        LoadError::BadPlayerName => String::from_str("Error: Inappropriate or blank player name."),
        LoadError::TooManyColumns { row, player } => {
            let text = with_number("Error: Too many columns in row ", *row);
            let text = with_text(text, " of player ");
            string_of(&then_number(text, *player))
        },
        LoadError::NotEnoughRows { player } => string_of(&with_number("Error: Not enough rows for player ", *player)),
        LoadError::ShipMalformed { ship_id } => {
            let text = with_number("Error: Ship ", *ship_id);
            string_of(&with_text(text, " is not properly sized or has gaps"))
        },
        LoadError::ShipRejected { ship_id } => {
            let text = with_number("Error: Ship ", *ship_id);
            string_of(&with_text(text, " cannot be placed on the board"))
        },
    }
}

/// The number of header lines among `lines`: three, or fewer where the
/// lines end before.
pub open spec fn header_count(lines: Seq<Seq<char>>) -> int {
    if lines.len() < 3 {
        lines.len() as int
    } else {
        3
    }
}

/// Each header line is in order.
pub open spec fn headers_fine(lines: Seq<Seq<char>>) -> bool {
    forall|k: int| 0 <= k < header_count(lines) ==> header_failure(#[trigger] lines[k], k as usize) is None
}

/// `msg` is the error text of the first header line that is not in order.
pub open spec fn first_header_failure(lines: Seq<Seq<char>>, msg: Seq<char>) -> bool {
    exists|k: int|
        {
            &&& 0 <= k < header_count(lines)
            &&& header_failure(#[trigger] lines[k], k as usize) == Some(msg)
            &&& forall|j: int| 0 <= j < k ==> header_failure(#[trigger] lines[j], j as usize) is None
        }
}

/// The size on header line `k`, or `current` where there is no such line
/// or it holds no size.
pub open spec fn header_number(lines: Seq<Seq<char>>, k: int, current: usize) -> usize {
    if k < lines.len() {
        match size_of_text(trimmed(lines[k])) {
            Ok(n) => n,
            Err(_) => current,
        }
    } else {
        current
    }
}

/// The game with the header lines taken in.
pub open spec fn with_headers(game: GameView, lines: Seq<Seq<char>>) -> GameView {
    GameView {
        rows: header_number(lines, 0, game.rows),
        cols: header_number(lines, 1, game.cols),
        player_count: header_number(lines, 2, game.player_count),
        ..game
    }
}

/// Text that goes before the error of a player who cannot be read.
pub open spec fn player_error_prefix() -> Seq<char> {
    "Error loading player game data: "@
}

/// Loads a game from the lines of a save file: up to three header lines,
/// then the players. On success the game has the dimensions and the number
/// of players of the header, the players behind the boards that it had, and
/// counts as loaded. On an error the game is as it was.
pub fn load_lines(lines: &Vec<String>, myboard: &mut GameData) -> (r: Result<(), String>)
    requires
        old(myboard).wf(),
    ensures
        final(myboard).wf(),
        match r {
            Ok(_) => {
                &&& headers_fine(lines_view(lines))
                &&& final(myboard)@ == (GameView {
                    loaded: true,
                    boards: final(myboard)@.boards,
                    ..with_headers(old(myboard)@, lines_view(lines))
                })
                &&& old(myboard)@.boards.len() <= final(myboard)@.boards.len()
                &&& final(myboard)@.boards.subrange(0, old(myboard)@.boards.len() as int) == old(myboard)@.boards
                &&& players_loaded(
                    lines_view(lines),
                    header_count(lines_view(lines)),
                    &*final(myboard),
                    final(myboard)@.boards.subrange(
                        old(myboard)@.boards.len() as int,
                        final(myboard)@.boards.len() as int,
                    ),
                )
            },
            Err(msg) => {
                &&& final(myboard)@ == old(myboard)@
                &&& if headers_fine(lines_view(lines)) {
                    exists|board: GameData, e: LoadError|
                        {
                            &&& board@ == with_headers(old(myboard)@, lines_view(lines))
                            &&& #[trigger] players_failure(
                                lines_view(lines),
                                header_count(lines_view(lines)),
                                &board,
                                e,
                            )
                            &&& msg@ == player_error_prefix() + load_error_text(e)
                        }
                } else {
                    first_header_failure(lines_view(lines), msg@)
                }
            },
        },
{
    let ghost text = lines_view(lines);
    let (old_cols, old_rows) = myboard.get_col_row();
    let old_count = myboard.get_playercount();
    let n: usize = lines.len();
    let headers: usize = if n < 3 {
        n
    } else {
        3
    };
    let mut k: usize = 0;
    while k < headers
        invariant
            k <= headers == header_count(text),
            n == lines@.len(),
            text == lines_view(lines),
            old(myboard).wf(),
            myboard.wf(),
            old_cols == old(myboard)@.cols,
            old_rows == old(myboard)@.rows,
            old_count == old(myboard)@.player_count,
            forall|j: int| 0 <= j < k ==> header_failure(#[trigger] text[j], j as usize) is None,
            myboard@ == (GameView {
                rows: if k > 0 {
                    header_number(text, 0, old(myboard)@.rows)
                } else {
                    old(myboard)@.rows
                },
                cols: if k > 1 {
                    header_number(text, 1, old(myboard)@.cols)
                } else {
                    old(myboard)@.cols
                },
                player_count: if k > 2 {
                    header_number(text, 2, old(myboard)@.player_count)
                } else {
                    old(myboard)@.player_count
                },
                ..old(myboard)@
            }),
        decreases headers - k,
    {
        assert(text[k as int] == lines@[k as int]@);
        match load_file_game_data(lines[k].as_str(), myboard, k) {
            Ok(_) => {},
            Err(msg) => {
                let restored = myboard.set_col_row(old_cols, old_rows);
                myboard.set_playercount(old_count);
                assert(myboard@ == old(myboard)@);
                return Err(msg);
            },
        }
        k += 1;
    }
    assert(headers_fine(text));
    assert(myboard@ == with_headers(old(myboard)@, text));
    let ghost snapshot = *myboard;
    match load_player_game_data(lines, headers, myboard) {
        Ok(_) => {
            myboard.set_loaded(true);
            proof {
                let added = myboard@.boards.subrange(old(myboard)@.boards.len() as int, myboard@.boards.len() as int);
                assert(players_loaded(text, headers as int, &snapshot, added));
                assert forall|b: int| 0 <= b < added.len() implies {
                    &&& block_ok(text, #[trigger] block_start(headers as int, myboard@.rows as int, b), &*myboard)
                    &&& is_player_of(
                        text,
                        block_start(headers as int, myboard@.rows as int, b),
                        &*myboard,
                        b as usize,
                        &added[b],
                    )
                } by {
                    let from = block_start(headers as int, snapshot@.rows as int, b);
                    assert(block_ok(text, from, &snapshot));
                    assert(is_player_of(text, from, &snapshot, b as usize, &added[b]));
                    lemma_same_grid(text, from, &snapshot, &*myboard, added[b].ships());
                }
            }
            Ok(())
        },
        Err(e) => {
            let restored = myboard.set_col_row(old_cols, old_rows);
            myboard.set_playercount(old_count);
            assert(myboard@ == old(myboard)@);
            let text = with_text(to_chars("Error loading player game data: "), load_error_message(&e).as_str());
            Err(string_of(&text))
        },
    }
}

/// What is said of a grid for a game holds for every game with the same
/// numbers of rows and columns.
proof fn lemma_same_grid(lines: Seq<Seq<char>>, from: int, a: &GameData, b: &GameData, ships: Seq<ShipBoundingBox>)
    requires
        a@.rows == b@.rows,
        a@.cols == b@.cols,
    ensures
        block_ok(lines, from, a) == block_ok(lines, from, b),
        all_on_grid(a, ships) == all_on_grid(b, ships),
{
    let grid = grid_lines(lines, from + 1, a@.rows as int);
    let none = Seq::<ShipBoundingBox>::empty();
    assert forall|col: int, row: int|
        crate::rebuild::unplaceable_at(grid, a, none, col, row) == crate::rebuild::unplaceable_at(
            grid,
            b,
            none,
            col,
            row,
        ) by {
        assert forall|lo: (int, int), hi: (int, int)|
            crate::rebuild::span_admissible(a, none, value_at(grid, col, row), lo, hi)
                == crate::rebuild::span_admissible(b, none, value_at(grid, col, row), lo, hi) by {}
    }
}

/// The text of a row of a grid: its cells in decimal notation, with a
/// comma between each two.
pub open spec fn row_text(cells: Seq<usize>) -> Seq<char>
    decreases cells.len(),
{
    if cells.len() == 0 {
        Seq::<char>::empty()
    } else if cells.len() == 1 {
        decimal_digits(cells[0] as nat)
    } else {
        row_text(cells.drop_last()) + seq![','] + decimal_digits(cells.last() as nat)
    }
}

/// The text of a row of a grid.
pub fn format_row(row: &Vec<usize>) -> (r: String)
    ensures
        r@ == row_text(row@),
{
    let n: usize = row.len();
    let mut text: Vec<char> = Vec::new();
    let mut i: usize = 0;
    while i < n
        invariant
            i <= n == row@.len(),
            text@ == row_text(row@.take(i as int)),
        decreases n - i,
    {
        proof {
            assert(row@.take(i + 1).drop_last() == row@.take(i as int));
            assert(row@.take(i + 1).last() == row@[i as int]);
        }
        if i > 0 {
            text.push(',');
        }
        let mut digits = decimal(row[i]);
        text.append(&mut digits);
        i += 1;
    }
    assert(row@.take(n as int) == row@);
    string_of(&text)
}

/// The row `row` of the grid of `cols` columns that shows `ships`.
pub open spec fn painted_row(ships: Seq<ShipBoundingBox>, cols: int, row: int) -> Seq<usize> {
    Seq::new(cols as nat, |col: int| painted(ships, col, row))
}

/// The lines of a player in a save file: the name, then the rows of the
/// grid of `cols` columns and `rows` rows that shows the player's ships.
pub open spec fn player_text(player: &PlayBoard, cols: int, rows: int) -> Seq<Seq<char>> {
    seq![player.name()] + Seq::new(rows as nat, |row: int| row_text(painted_row(player.ships(), cols, row)))
}

/// The lines of the players `boards`, one player after the other.
pub open spec fn boards_text(boards: Seq<PlayBoard>, cols: int, rows: int) -> Seq<Seq<char>>
    decreases boards.len(),
{
    if boards.len() == 0 {
        Seq::<Seq<char>>::empty()
    } else {
        boards_text(boards.drop_last(), cols, rows) + player_text(&boards.last(), cols, rows)
    }
}

/// The three header lines of a save file as they are written: the number
/// of columns, the number of rows, the number of players.
pub open spec fn header_text(game: GameView) -> Seq<Seq<char>> {
    seq![
        decimal_digits(game.cols as nat),
        decimal_digits(game.rows as nat),
        decimal_digits(game.player_count as nat),
    ]
}

/// The lines of the save file of a game: the header, then each player with
/// the name and the grid. The boards are taken out of the game one by one
/// and their ships taken off them, so that the game is left without boards.
pub fn write_lines(myboard: &mut GameData) -> (lines: Vec<String>)
    requires
        old(myboard).wf(),
    ensures
        final(myboard).wf(),
        final(myboard)@ == (GameView { boards: Seq::<PlayBoard>::empty(), ..old(myboard)@ }),
        lines_view(&lines) == header_text(old(myboard)@) + boards_text(
            old(myboard)@.boards,
            old(myboard)@.cols as int,
            old(myboard)@.rows as int,
        ),
{
    let (my_cols, my_rows) = myboard.get_col_row();
    let mut lines: Vec<String> = Vec::new();
    lines.push(string_of(&decimal(my_cols)));
    lines.push(string_of(&decimal(my_rows)));
    lines.push(string_of(&decimal(myboard.get_playercount())));
    assert(lines_view(&lines) == header_text(old(myboard)@));
    let ghost all = myboard@.boards;
    let ghost mut done: int = 0;
    assert(all.subrange(0, all.len() as int) == all);
    assert(all.subrange(0, 0) == Seq::<PlayBoard>::empty());
    loop
        invariant
            myboard.wf(),
            all == old(myboard)@.boards,
            0 <= done <= all.len(),
            my_cols == old(myboard)@.cols,
            my_rows == old(myboard)@.rows,
            myboard@ == (GameView { boards: all.subrange(done, all.len() as int), ..old(myboard)@ }),
            lines_view(&lines) == header_text(old(myboard)@) + boards_text(
                all.subrange(0, done),
                my_cols as int,
                my_rows as int,
            ),
        ensures
            myboard.wf(),
            myboard@ == (GameView { boards: Seq::<PlayBoard>::empty(), ..old(myboard)@ }),
            lines_view(&lines) == header_text(old(myboard)@) + boards_text(all, my_cols as int, my_rows as int),
        decreases all.len() - done,
    {
        let ghost so_far = lines_view(&lines);
        match myboard.remove_first_board() {
            None => {
                assert(all.subrange(0, done) == all);
                assert(myboard@.boards == Seq::<PlayBoard>::empty());
                break;
            },
            Some(playboard) => {
                let mut playboard = playboard;
                assert(playboard == all[done]);
                let ghost shown = playboard;
                let tmpboard = create_my_board_from_player(myboard, &mut playboard);
                lines.push(playboard.get_playername().clone());
                let ghost with_name = lines_view(&lines);
                assert(with_name == so_far.push(shown.name()));
                let mut r: usize = 0;
                while r < my_rows
                    invariant
                        r <= my_rows == tmpboard@.len(),
                        is_painting(grid_view(&tmpboard), shown.ships(), my_cols as int, my_rows as int),
                        lines_view(&lines) == with_name + Seq::new(
                            r as nat,
                            |row: int| row_text(painted_row(shown.ships(), my_cols as int, row)),
                        ),
                    decreases my_rows - r,
                {
                    let ghost prior = lines_view(&lines);
                    proof {
                        let cells = tmpboard@[r as int]@;
                        assert(grid_view(&tmpboard)[r as int] == cells);
                        assert(cells.len() == my_cols);
                        assert forall|col: int| 0 <= col < my_cols implies cells[col] == painted(
                            shown.ships(),
                            col,
                            r as int,
                        ) by {
                            assert(value_at(grid_view(&tmpboard), col, r as int) == cells[col]);
                        }
                        assert(cells == painted_row(shown.ships(), my_cols as int, r as int));
                    }
                    lines.push(format_row(&tmpboard[r]));
                    assert(lines_view(&lines) == prior.push(
                        row_text(painted_row(shown.ships(), my_cols as int, r as int)),
                    ));
                    r += 1;
                }
                proof {
                    let next = all.subrange(0, done + 1);
                    assert(next.drop_last() == all.subrange(0, done));
                    assert(next.last() == shown);
                    assert(lines_view(&lines) == so_far + player_text(&shown, my_cols as int, my_rows as int));
                    assert(myboard@.boards == all.subrange(done + 1, all.len() as int));
                    done = done + 1;
                }
            },
        }
    }
    lines
}

} // verus!
