use battleship::board::{GameData, PlayBoard};
use battleship::enums::{RowColErr, MAX_SIZE};

fn named(name: &str, num: usize) -> PlayBoard {
    let mut player = PlayBoard::default();
    player.set_playername(name.to_string());
    player.set_playernum(num);
    player
}

#[test]
fn new_game_has_the_defaults() {
    let game = GameData::default();
    assert_eq!(game.get_col_row(), (10, 10));
    assert_eq!(game.get_playercount(), 1);
    assert_eq!(game.get_shipsizes(), (2, 5));
    assert!(!game.get_loaded());
    assert!(!game.get_interactive());
    assert_eq!(game.get_filename(), "");
    assert_eq!(game.get_boards_len(), 0);
    assert!(game.boards_get_last().is_none());
}

#[test]
fn flags_and_file_name_are_kept() {
    let mut game = GameData::default();
    game.set_interactive(true);
    game.set_loaded(true);
    game.set_filename("fleet.txt".to_string());
    assert!(game.get_interactive());
    assert!(game.get_loaded());
    assert_eq!(game.get_filename(), "fleet.txt");
    game.set_interactive(false);
    assert!(!game.get_interactive());
    assert!(game.get_loaded());
}

#[test]
fn zero_rows_are_rejected() {
    let mut game = GameData::default();
    assert_eq!(game.set_row_or_col(0, true), Err(RowColErr::TooSmall));
    assert_eq!(game.get_col_row(), (10, 10));
    assert_eq!(game.set_col_row(4, 0), Err(RowColErr::TooSmall));
    assert_eq!(game.get_col_row(), (10, 10));
}

#[test]
fn zero_columns_are_rejected() {
    let mut game = GameData::default();
    assert_eq!(game.set_row_or_col(0, false), Err(RowColErr::TooSmall));
    assert_eq!(game.set_col_row(0, 4), Err(RowColErr::TooSmall));
    assert_eq!(game.get_col_row(), (10, 10));
}

#[test]
fn dimensions_above_the_limit_are_rejected() {
    let mut game = GameData::default();
    assert_eq!(MAX_SIZE, 32767);
    assert_eq!(game.set_row_or_col(MAX_SIZE + 1, true), Err(RowColErr::TooBig));
    assert_eq!(game.set_row_or_col(MAX_SIZE + 1, false), Err(RowColErr::TooBig));
    assert_eq!(game.set_col_row(MAX_SIZE + 1, 3), Err(RowColErr::TooBig));
    assert_eq!(game.set_col_row(3, usize::MAX), Err(RowColErr::TooBig));
    assert_eq!(game.get_col_row(), (10, 10));
    assert_eq!(game.set_col_row(MAX_SIZE, MAX_SIZE), Ok(()));
    assert_eq!(game.get_col_row(), (MAX_SIZE, MAX_SIZE));
}

#[test]
fn columns_are_looked_at_before_rows() {
    let mut game = GameData::default();
    assert_eq!(game.set_col_row(MAX_SIZE + 1, 0), Err(RowColErr::TooBig));
    assert_eq!(game.set_col_row(0, MAX_SIZE + 1), Err(RowColErr::TooSmall));
}

#[test]
fn rows_and_columns_are_set_apart() {
    let mut game = GameData::default();
    assert_eq!(game.set_row_or_col(7, true), Ok(()));
    assert_eq!(game.get_col_row(), (10, 7));
    assert_eq!(game.set_row_or_col(3, false), Ok(()));
    assert_eq!(game.get_col_row(), (3, 7));
    assert_eq!(game.set_col_row(5, 6), Ok(()));
    assert_eq!(game.get_col_row(), (5, 6));
    assert!(game.in_bounds(4, 5));
    assert!(!game.in_bounds(5, 5));
    assert!(!game.in_bounds(4, 6));
    assert!(game.in_bounds(0, 0));
}

#[test]
fn ship_sizes_below_two_are_rejected() {
    let mut game = GameData::default();
    assert_eq!(game.set_shipsizes(1, None), Err("Error: Smallest ship size must be greater than 1"));
    assert_eq!(game.set_shipsizes(0, Some(4)), Err("Error: Smallest ship size must be greater than 1"));
    assert_eq!(game.get_shipsizes(), (2, 5));
}

#[test]
fn largest_ship_below_the_smallest_is_rejected() {
    let mut game = GameData::default();
    assert_eq!(
        game.set_shipsizes(4, Some(3)),
        Err("Error: Largest ship size must be at least as large as the smallest ship size and greater than 1")
    );
    assert_eq!(game.get_shipsizes(), (2, 5));
}

#[test]
fn ship_sizes_are_set() {
    let mut game = GameData::default();
    assert_eq!(game.set_shipsizes(3, Some(7)), Ok(()));
    assert_eq!(game.get_shipsizes(), (3, 7));
    assert_eq!(game.set_shipsizes(4, Some(4)), Ok(()));
    assert_eq!(game.get_shipsizes(), (4, 4));
}

#[test]
fn largest_ship_stays_unless_it_is_below() {
    let mut game = GameData::default();
    assert_eq!(game.set_shipsizes(3, None), Ok(()));
    assert_eq!(game.get_shipsizes(), (3, 5));
    assert_eq!(game.set_shipsizes(8, None), Ok(()));
    assert_eq!(game.get_shipsizes(), (8, 8));
}

#[test]
fn player_count_goes_up_and_down() {
    let mut game = GameData::default();
    game.increment_playercount();
    assert_eq!(game.get_playercount(), 2);
    assert_eq!(game.decrement_playercount(), Ok(()));
    assert_eq!(game.decrement_playercount(), Ok(()));
    assert_eq!(game.get_playercount(), 0);
    assert_eq!(game.decrement_playercount(), Err("Error: Dropped below 0 players."));
    assert_eq!(game.get_playercount(), 0);
    game.set_playercount(12);
    assert_eq!(game.get_playercount(), 12);
}

#[test]
fn boards_are_kept_in_order() {
    let mut game = GameData::default();
    game.boards_add(named("Alice", 1));
    game.boards_add(named("Bob", 2));
    game.boards_add(named("Carol", 3));
    assert_eq!(game.get_boards_len(), 3);
    assert_eq!(game.boards_get_last().unwrap().get_playername(), "Carol");
    assert_eq!(game.boards_get_player(0).unwrap().get_playername(), "Alice");
    assert_eq!(game.boards_get_player(2).unwrap().get_playername(), "Carol");
    assert!(game.boards_get_player(3).is_none());
    assert!(game.boards_get_player(usize::MAX).is_none());
    assert_eq!(game.boards_pop_last().unwrap().get_playername(), "Carol");
    assert_eq!(game.remove_first_board().unwrap().get_playername(), "Alice");
    assert_eq!(game.get_boards_len(), 1);
    assert_eq!(game.boards_get_last().unwrap().get_playername(), "Bob");
    assert_eq!(game.boards_pop_last().unwrap().get_playernum(), 2);
    assert!(game.boards_pop_last().is_none());
    assert!(game.remove_first_board().is_none());
}

#[test]
fn player_count_does_not_follow_the_boards() {
    let mut game = GameData::default();
    game.boards_add(named("Alice", 1));
    game.boards_add(named("Bob", 2));
    assert_eq!(game.get_playercount(), 1);
    assert_eq!(game.get_boards_len(), 2);
}
