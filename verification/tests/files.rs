use battleship::board::GameData;
use battleship::enums::LoadError;
use battleship::file::{
    format_row, is_bad_name, load_error_message, load_file_game_data, load_lines, load_player_game_data,
    parse_row, read_grid, read_player, write_lines,
};

fn lines(text: &str) -> Vec<String> {
    text.split('\n').map(|l| l.to_string()).collect()
}

fn game(cols: usize, rows: usize) -> GameData {
    let mut game = GameData::default();
    game.set_col_row(cols, rows).unwrap();
    game
}

#[test]
fn row_of_cells_is_read() {
    assert_eq!(parse_row("1,1,0"), vec![1, 1, 0]);
    assert_eq!(parse_row(" 3 , 0,12 "), vec![3, 0, 12]);
    assert_eq!(parse_row("7"), vec![7]);
}

#[test]
fn cell_that_is_no_number_is_water() {
    assert_eq!(parse_row("1,x,2"), vec![1, 0, 2]);
    assert_eq!(parse_row("1,,2,"), vec![1, 0, 2, 0]);
    assert_eq!(parse_row(""), vec![0]);
    assert_eq!(parse_row("-1,1 1,99999999999999999999999999"), vec![0, 0, 0]);
}

#[test]
fn row_of_cells_is_written() {
    assert_eq!(format_row(&vec![1, 1, 0]), "1,1,0");
    assert_eq!(format_row(&vec![12]), "12");
    assert_eq!(format_row(&vec![]), "");
    assert_eq!(format_row(&vec![0, 32767, 5]), "0,32767,5");
}

#[test]
fn written_row_reads_back() {
    for row in [vec![1, 1, 0], vec![0], vec![10, 200, 3000, 0, 0]] {
        assert_eq!(parse_row(&format_row(&row)), row);
    }
}

#[test]
fn names_without_comma_are_good() {
    let chars = |s: &str| s.chars().collect::<Vec<char>>();
    assert!(!is_bad_name(&chars("Alice")));
    assert!(!is_bad_name(&chars("Alice Smith")));
    assert!(is_bad_name(&chars("")));
    assert!(is_bad_name(&chars("1,1,0")));
    assert!(is_bad_name(&chars("Smith, Alice")));
}

#[test]
fn header_lines_set_rows_columns_and_players() {
    let mut game = GameData::default();
    assert_eq!(load_file_game_data("2", &mut game, 0), Ok(()));
    assert_eq!(game.get_col_row(), (10, 2));
    assert_eq!(load_file_game_data(" 3 ", &mut game, 1), Ok(()));
    assert_eq!(game.get_col_row(), (3, 2));
    assert_eq!(load_file_game_data("4\r", &mut game, 2), Ok(()));
    assert_eq!(game.get_playercount(), 4);
    assert_eq!(game.get_col_row(), (3, 2));
}

#[test]
fn empty_header_line_is_an_error() {
    let mut game = GameData::default();
    assert_eq!(load_file_game_data("", &mut game, 0), Err("Error: Empty line at 0".to_string()));
    assert_eq!(load_file_game_data("", &mut game, 2), Err("Error: Empty line at 2".to_string()));
    assert_eq!(load_file_game_data("", &mut game, 17), Err("Error: Empty line at 17".to_string()));
    assert_eq!(game.get_col_row(), (10, 10));
}

#[test]
fn zero_rows_in_the_header_are_rejected() {
    let mut game = GameData::default();
    assert_eq!(
        load_file_game_data("0", &mut game, 0),
        Err("Error: Failed to load player correctly, too small.".to_string())
    );
    assert_eq!(game.get_col_row(), (10, 10));
}

#[test]
fn header_line_above_the_limit_is_too_big() {
    let mut game = GameData::default();
    assert_eq!(
        load_file_game_data("32768", &mut game, 1),
        Err("Error: Failed to load player correctly, too big.".to_string())
    );
    assert_eq!(
        load_file_game_data("40000", &mut game, 2),
        Err("Error: Failed to load player correctly, too big.".to_string())
    );
    assert_eq!(game.get_col_row(), (10, 10));
    assert_eq!(game.get_playercount(), 1);
}

#[test]
fn header_line_that_is_no_number_fails() {
    let mut game = GameData::default();
    for bad in ["ten", "1,2", " ", "-4"] {
        assert_eq!(
            load_file_game_data(bad, &mut game, 0),
            Err("Error: Failed to load player correctly, failed.".to_string())
        );
    }
}

#[test]
fn fourth_header_line_goes_too_far() {
    let mut game = GameData::default();
    assert_eq!(load_file_game_data("5", &mut game, 3), Err("Went too far, not sure why.".to_string()));
}

#[test]
fn grid_is_read_from_the_lines() {
    let text = lines("Alice\n1,1,0\n0,0\n");
    assert_eq!(read_grid(&text, 1, 2, 3, 0), Ok(vec![vec![1, 1, 0], vec![0, 0]]));
    assert_eq!(read_grid(&text, 1, 0, 3, 0), Ok(vec![]));
}

#[test]
fn row_with_too_many_cells_is_an_error() {
    let text = lines("Alice\n1,1,0\n0,0,0,0");
    assert_eq!(read_grid(&text, 1, 2, 3, 0), Err(LoadError::TooManyColumns { row: 2, player: 0 }));
    assert_eq!(read_grid(&text, 1, 2, 2, 1), Err(LoadError::TooManyColumns { row: 1, player: 1 }));
}

#[test]
fn missing_row_is_an_error() {
    let text = lines("Alice\n1,1,0");
    assert_eq!(read_grid(&text, 1, 2, 3, 0), Err(LoadError::NotEnoughRows { player: 1 }));
    assert_eq!(read_grid(&text, 2, 1, 3, 1), Err(LoadError::NotEnoughRows { player: 2 }));
    assert_eq!(read_grid(&text, 9, 1, 3, 0), Err(LoadError::NotEnoughRows { player: 1 }));
    assert_eq!(read_grid(&text, usize::MAX, 2, 3, 0), Err(LoadError::NotEnoughRows { player: 1 }));
    assert_eq!(read_grid(&text, 9, 0, 3, 0), Ok(vec![]));
}

#[test]
fn player_beyond_the_lines_has_a_bad_name() {
    let board = game(3, 2);
    let text = lines("Alice\n0,0,0\n0,0,0");
    assert_eq!(read_player(&text, 3, &board, 0).err(), Some(LoadError::BadPlayerName));
    assert_eq!(read_player(&text, usize::MAX, &board, 0).err(), Some(LoadError::BadPlayerName));
}

#[test]
fn players_beyond_the_lines_are_none() {
    let mut board = game(3, 2);
    let text = lines("Alice\n0,0,0\n0,0,0");
    assert_eq!(load_player_game_data(&text, 3, &mut board), Ok(()));
    assert_eq!(load_player_game_data(&text, 40, &mut board), Ok(()));
    assert_eq!(load_player_game_data(&text, usize::MAX, &mut board), Ok(()));
    assert_eq!(board.get_boards_len(), 0);
}

#[test]
fn player_is_read_with_name_number_and_ships() {
    let board = game(3, 2);
    let text = lines("  Alice \n2,2,0\n0,0,1");
    let player = read_player(&text, 0, &board, 4).unwrap();
    assert_eq!(player.get_playername(), "Alice");
    assert_eq!(player.get_playernum(), 4);
    let ships = player.return_ships();
    assert_eq!(ships.len(), 2);
    assert_eq!((ships[0].ship_id(), ships[0].start(), ships[0].end()), (2, (0, 0), (1, 0)));
    assert_eq!((ships[1].ship_id(), ships[1].start(), ships[1].end()), (1, (2, 1), (2, 1)));
}

#[test]
fn player_with_a_bad_name_is_an_error() {
    let board = game(3, 2);
    assert_eq!(read_player(&lines("1,1,0\n0,0,0\n0,0,0"), 0, &board, 0).err(), Some(LoadError::BadPlayerName));
    assert_eq!(read_player(&lines("   \n0,0,0\n0,0,0"), 0, &board, 0).err(), Some(LoadError::BadPlayerName));
}

#[test]
fn sample_file_with_two_cells_of_id_one_is_rejected() {
    let mut game = GameData::default();
    let text = lines("2\n3\n1\nAlice\n1,1,0\n0,0,0");
    assert_eq!(
        load_lines(&text, &mut game),
        Err("Error loading player game data: Error: Ship 1 is not properly sized or has gaps".to_string())
    );
    // The game is as it was.
    assert_eq!(game.get_col_row(), (10, 10));
    assert_eq!(game.get_playercount(), 1);
    assert_eq!(game.get_boards_len(), 0);
    assert!(!game.get_loaded());
}

#[test]
fn sample_file_with_cells_of_id_one_in_a_column_is_rejected() {
    let mut game = GameData::default();
    let text = lines("2\n3\n1\nAlice\n1,0,0\n1,0,0");
    assert_eq!(
        load_lines(&text, &mut game),
        Err("Error loading player game data: Error: Ship 1 is not properly sized or has gaps".to_string())
    );
}

#[test]
fn sample_file_with_two_cells_of_id_two_is_loaded() {
    let mut game = GameData::default();
    let text = lines("2\n3\n1\nAlice\n2,2,0\n0,0,0");
    assert_eq!(load_lines(&text, &mut game), Ok(()));
    assert_eq!(game.get_col_row(), (3, 2));
    assert_eq!(game.get_playercount(), 1);
    assert!(game.get_loaded());
    assert_eq!(game.get_boards_len(), 1);
    let player = game.boards_get_player(0).unwrap();
    assert_eq!(player.get_playername(), "Alice");
    assert_eq!(player.get_playernum(), 0);
    let ships = player.return_ships();
    assert_eq!(ships.len(), 1);
    assert_eq!((ships[0].ship_id(), ships[0].start(), ships[0].end()), (2, (0, 0), (1, 0)));
}

#[test]
fn several_players_are_loaded_in_order() {
    let mut game = GameData::default();
    let text = lines("2\n3\n2\nAlice\n2,2,0\n0,0,0\nBob\n0,0,3\n0,0,3");
    assert_eq!(
        load_lines(&text, &mut game),
        Err("Error loading player game data: Error: Ship 3 is not properly sized or has gaps".to_string())
    );
    assert_eq!(game.get_boards_len(), 0);
    let text = lines("3\n3\n2\nAlice\n2,2,0\n0,0,0\n0,0,0\nBob\n0,0,3\n0,0,3\n1,0,3");
    assert_eq!(load_lines(&text, &mut game), Ok(()));
    assert_eq!(game.get_boards_len(), 2);
    assert_eq!(game.boards_get_player(0).unwrap().get_playername(), "Alice");
    let bob = game.boards_get_player(1).unwrap();
    assert_eq!(bob.get_playername(), "Bob");
    assert_eq!(bob.get_playernum(), 1);
    let ids: Vec<usize> = bob.return_ships().iter().map(|s| s.ship_id()).collect();
    assert_eq!(ids, vec![3, 1]);
}

#[test]
fn load_errors_leave_the_game_as_it_was() {
    let mut game = GameData::default();
    game.set_filename("old.txt".to_string());
    for (text, message) in [
        ("0\n3\n1\nAlice\n0,0,0", "Error: Failed to load player correctly, too small."),
        ("2\nthree\n1", "Error: Failed to load player correctly, failed."),
        ("2\n3\n99999\n", "Error: Failed to load player correctly, too big."),
        ("2\n\n1", "Error: Empty line at 1"),
        ("2\n3\n1\n\n0,0,0\n0,0,0", "Error loading player game data: Error: Inappropriate or blank player name."),
        ("2\n3\n1\nA,B\n0,0,0\n0,0,0", "Error loading player game data: Error: Inappropriate or blank player name."),
        ("2\n3\n1\nAlice\n0,0,0", "Error loading player game data: Error: Not enough rows for player 1"),
        (
            "2\n3\n1\nAlice\n0,0,0\n0,0,0,0",
            "Error loading player game data: Error: Too many columns in row 2 of player 0",
        ),
        (
            "2\n3\n2\nAlice\n0,0,0\n0,0,0\nBob\n0,0,0,0\n0,0,0",
            "Error loading player game data: Error: Too many columns in row 1 of player 1",
        ),
        (
            "2\n3\n2\nAlice\n0,0,0\n0,0,0\nBob\n0,0,0",
            "Error loading player game data: Error: Not enough rows for player 2",
        ),
    ] {
        assert_eq!(load_lines(&lines(text), &mut game), Err(message.to_string()), "{:?}", text);
        assert_eq!(game.get_col_row(), (10, 10));
        assert_eq!(game.get_playercount(), 1);
        assert_eq!(game.get_boards_len(), 0);
        assert_eq!(game.get_filename(), "old.txt");
        assert!(!game.get_loaded());
    }
}

#[test]
fn header_alone_is_a_game_without_players() {
    let mut game = GameData::default();
    assert_eq!(load_lines(&lines("4\n6\n2"), &mut game), Ok(()));
    assert_eq!(game.get_col_row(), (6, 4));
    assert_eq!(game.get_playercount(), 2);
    assert_eq!(game.get_boards_len(), 0);
    assert!(game.get_loaded());
    let mut game = GameData::default();
    assert_eq!(load_lines(&lines("4"), &mut game), Ok(()));
    assert_eq!(game.get_col_row(), (10, 4));
    assert_eq!(load_lines(&Vec::new(), &mut game), Ok(()));
}

#[test]
fn players_are_read_from_the_given_line_on() {
    let mut board = game(3, 2);
    let text = lines("skipped\nAlice\n2,2,0\n0,0,0\nBob\n0,0,0\n0,0,0");
    assert_eq!(load_player_game_data(&text, 1, &mut board), Ok(()));
    assert_eq!(board.get_boards_len(), 2);
    assert_eq!(board.boards_get_player(1).unwrap().get_playername(), "Bob");
    assert!(!board.get_loaded());
    assert_eq!(load_player_game_data(&text, 7, &mut board), Ok(()));
    assert_eq!(board.get_boards_len(), 2);
    assert_eq!(
        load_player_game_data(&text, 2, &mut board),
        Err(LoadError::BadPlayerName)
    );
    assert_eq!(board.get_boards_len(), 2);
}

#[test]
fn load_error_messages_name_what_is_wrong() {
    assert_eq!(load_error_message(&LoadError::BadPlayerName), "Error: Inappropriate or blank player name.");
    assert_eq!(
        load_error_message(&LoadError::TooManyColumns { row: 3, player: 12 }),
        "Error: Too many columns in row 3 of player 12"
    );
    assert_eq!(load_error_message(&LoadError::NotEnoughRows { player: 2 }), "Error: Not enough rows for player 2");
    assert_eq!(
        load_error_message(&LoadError::ShipMalformed { ship_id: 14 }),
        "Error: Ship 14 is not properly sized or has gaps"
    );
    assert_eq!(
        load_error_message(&LoadError::ShipRejected { ship_id: 5 }),
        "Error: Ship 5 cannot be placed on the board"
    );
}

#[test]
fn game_is_written_as_lines() {
    let mut game = GameData::default();
    let text = lines("3\n4\n2\nAlice\n2,2,0,0\n0,0,0,0\n0,0,0,0\nBob\n0,0,3,0\n0,0,3,0\n1,0,3,0");
    assert_eq!(load_lines(&text, &mut game), Ok(()));
    let written = write_lines(&mut game);
    assert_eq!(
        written,
        vec!["4", "3", "2", "Alice", "2,2,0,0", "0,0,0,0", "0,0,0,0", "Bob", "0,0,3,0", "0,0,3,0", "1,0,3,0"]
    );
    assert_eq!(game.get_boards_len(), 0);
    assert_eq!(game.get_col_row(), (4, 3));
    assert_eq!(game.get_playercount(), 2);
}

#[test]
fn game_without_boards_is_written_as_its_header() {
    let mut game = GameData::default();
    assert_eq!(write_lines(&mut game), vec!["10", "10", "1"]);
}

#[test]
fn written_players_load_again() {
    let mut game = GameData::default();
    let text = lines("3\n3\n2\nAlice\n2,2,0\n0,0,0\n0,0,0\nBob\n0,0,3\n0,0,3\n1,0,3");
    assert_eq!(load_lines(&text, &mut game), Ok(()));
    let written = write_lines(&mut game);
    // The header is written columns first and read rows first; the grid here is square.
    let mut again = GameData::default();
    assert_eq!(load_lines(&written, &mut again), Ok(()));
    assert_eq!(write_lines(&mut again), written);
}
