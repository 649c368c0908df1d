use battleship::board::{GameData, PlayBoard, ShipBoundingBox};
use battleship::enums::{Direction, QueryError, RowColErr, StateCreate};
use battleship::handler::{
    cell_of_key, find_valid_positions, opening_keys, pick_opening, handle_create, handle_help, handle_place_ship, handle_player, handle_random,
    handle_random_retry, handle_row_col, handle_row_col_error, handle_ships_size, has_state, holds_stray, looks_like_command,
    notice_message, parse_entry, place_chosen, place_request, process_ship_data, read_request, retry_step,
    draw_trial, Notice,
};

fn created() -> (GameData, Vec<StateCreate>, Vec<Notice>) {
    let mut game = GameData::default();
    let mut state = Vec::new();
    let mut out = Vec::new();
    assert!(handle_create(&mut game, Some(&"fleet.txt".to_string()), &mut state, &mut out));
    (game, state, out)
}

fn with_player(cols: usize, rows: usize) -> (GameData, Vec<StateCreate>, Vec<Notice>) {
    let (mut game, mut state, mut out) = created();
    game.set_col_row(cols, rows).unwrap();
    assert!(handle_player(&mut game, Some(&"Alice".to_string()), &mut state, &mut out));
    (game, state, out)
}

fn strings(items: &[&str]) -> Vec<String> {
    items.iter().map(|s| s.to_string()).collect()
}

#[test]
fn state_is_found_in_the_list() {
    let state = vec![StateCreate::StateFileName, StateCreate::StateCreate];
    assert!(has_state(&state, StateCreate::StateCreate));
    assert!(has_state(&state, StateCreate::StateFileName));
    assert!(!has_state(&state, StateCreate::StatePlayer));
    assert!(!has_state(&Vec::new(), StateCreate::StateCreate));
}

#[test]
fn rows_are_set_from_text() {
    let mut game = GameData::default();
    assert_eq!(handle_row_col(&mut game, Some(&"7".to_string()), true), Ok(()));
    assert_eq!(game.get_col_row(), (10, 7));
    assert_eq!(handle_row_col(&mut game, Some(&"4".to_string()), false), Ok(()));
    assert_eq!(game.get_col_row(), (4, 7));
}

#[test]
fn zero_rows_are_rejected_before_anything_is_placed() {
    let mut game = GameData::default();
    assert_eq!(handle_row_col(&mut game, Some(&"0".to_string()), true), Err(RowColErr::TooSmall));
    assert_eq!(game.get_col_row(), (10, 10));
    assert_eq!(handle_row_col(&mut game, Some(&"0".to_string()), false), Err(RowColErr::TooSmall));
    assert_eq!(game.get_col_row(), (10, 10));
}

#[test]
fn bad_dimensions_are_rejected() {
    let mut game = GameData::default();
    assert_eq!(handle_row_col(&mut game, Some(&"32768".to_string()), true), Err(RowColErr::TooBig));
    assert_eq!(handle_row_col(&mut game, Some(&"ten".to_string()), true), Err(RowColErr::Failed));
    assert_eq!(handle_row_col(&mut game, Some(&" 5".to_string()), false), Err(RowColErr::Failed));
    assert_eq!(handle_row_col(&mut game, None, false), Err(RowColErr::Failed));
    assert_eq!(game.get_col_row(), (10, 10));
}

#[test]
fn dimension_errors_have_their_texts() {
    let mut out = Vec::new();
    handle_row_col_error(RowColErr::Failed, true, &mut out);
    handle_row_col_error(RowColErr::Failed, false, &mut out);
    handle_row_col_error(RowColErr::TooSmall, true, &mut out);
    handle_row_col_error(RowColErr::TooSmall, false, &mut out);
    handle_row_col_error(RowColErr::TooBig, true, &mut out);
    handle_row_col_error(RowColErr::TooBig, false, &mut out);
    let texts: Vec<String> = out.iter().map(notice_message).collect();
    assert_eq!(
        texts,
        vec![
            "Error: Column is not a valid value",
            "Error: Row is not a valid value",
            "Error: Column value must be greater than or equal to 1",
            "Error: Row value must be greater than or equal to 1",
            "Error: Column value must be less than 32767",
            "Error: Row value must be less than 32767",
        ]
    );
}

#[test]
fn notices_have_their_texts() {
    let cases = vec![
        (
            Notice::Help,
            "Available commands: --load <filename>\n--guess <list in A1 or AA10 format>\n--help (this output)\n--exit or --quit to quit.",
        ),
        (Notice::MissingCreatePath, "Error: Missing path for Create command"),
        (Notice::ShipsWithoutCreate, "Error: Called Ships without a valid create and file path"),
        (Notice::ShipsValue(RowColErr::Failed), "Error: Unable to convert Ships value to integer"),
        (Notice::ShipsValue(RowColErr::TooSmall), "Error: A ship must be at least 1 or greater"),
        (Notice::ShipsValue(RowColErr::TooBig), "Error: A ship must be smaller than 32767"),
        (Notice::ShipSizesRefused("Error: refused".to_string()), "Error: refused"),
        (Notice::PlayerWithoutCreate, "Error: Called Player without a valid create or file path"),
        (
            Notice::CommandForPlayerName("--random".to_string()),
            "Error: Found command --random instead of a player name.",
        ),
        (Notice::EmptyPlayerName, "Error: Empty playername found!"),
        (Notice::NoPlayerUnderCreation, "Error: No player currently under creation."),
        (Notice::NoSpaceForShip(5), "Warning: No space for ship size 5"),
        (Notice::ShipAdded { size: 4, col: 12, row: 0 }, "Added ship 4, Col 12, Row 0"),
        (
            Notice::PlaceWithoutPlayer,
            "Error: Called Ships without a valid create and file path or without a player.",
        ),
        (Notice::NoShipStatus, "Error: No status for the new ship."),
        (Notice::BadPlacementFormat, "Error: Invalid format for ship placement."),
        (Notice::InvalidShipFormat, "Error: Invalid ship format."),
        (Notice::ShipSizeOutOfRange, "Error: Ship size out of allowed range."),
        (Notice::InvalidShipSize, "Error: Invalid ship size."),
        (Notice::Query(QueryError::InvalidFormat), "Error: Invalid coordinate format."),
        (Notice::Query(QueryError::InvalidRow), "Error: Invalid row"),
        (Notice::Query(QueryError::InvalidColumn), "Error: Invalid column"),
        (Notice::Query(QueryError::OutOfBounds), "Error: Out of bounds!!"),
        (Notice::InvalidShipEntry, "Error: Invalid ship entry format."),
        (Notice::InvalidRowNumber, "Error: Invalid row number."),
        (Notice::InvalidDirection, "Error: Invalid direction."),
        (Notice::NoPlayerAvailable, "Error: No player available."),
        (Notice::ShipNotCreated, "Error: Failed to create ship."),
    ];
    for (notice, text) in cases {
        assert_eq!(notice_message(&notice), text);
    }
}

#[test]
fn help_is_noted() {
    let mut out = vec![Notice::EmptyPlayerName];
    handle_help(&mut out);
    assert_eq!(out, vec![Notice::EmptyPlayerName, Notice::Help]);
}

#[test]
fn create_makes_a_new_game_with_the_path() {
    let mut game = GameData::default();
    game.set_col_row(3, 3).unwrap();
    game.set_loaded(true);
    let mut state = vec![StateCreate::StateRows];
    let mut out = Vec::new();
    assert!(handle_create(&mut game, Some(&"fleet.txt".to_string()), &mut state, &mut out));
    assert_eq!(game.get_filename(), "fleet.txt");
    assert_eq!(game.get_col_row(), (10, 10));
    assert!(!game.get_loaded());
    assert_eq!(state, vec![StateCreate::StateRows, StateCreate::StateFileName, StateCreate::StateCreate]);
    assert!(out.is_empty());
}

#[test]
fn create_without_a_path_fails() {
    let mut game = GameData::default();
    game.set_col_row(3, 3).unwrap();
    let mut state = Vec::new();
    let mut out = Vec::new();
    assert!(!handle_create(&mut game, None, &mut state, &mut out));
    assert_eq!(game.get_col_row(), (10, 10));
    assert!(state.is_empty());
    assert_eq!(out, vec![Notice::MissingCreatePath]);
}

#[test]
fn ship_sizes_need_a_created_game() {
    let mut game = GameData::default();
    let mut state = Vec::new();
    let mut out = Vec::new();
    assert!(!handle_ships_size(&mut game, Some(&"3".to_string()), &mut state, &mut out));
    assert_eq!(out, vec![Notice::ShipsWithoutCreate]);
    assert_eq!(game.get_shipsizes(), (2, 5));
    assert!(state.is_empty());
}

#[test]
fn first_ship_size_is_the_smallest() {
    let (mut game, mut state, mut out) = created();
    assert!(handle_ships_size(&mut game, Some(&"3".to_string()), &mut state, &mut out));
    assert_eq!(game.get_shipsizes(), (3, 5));
    assert!(has_state(&state, StateCreate::StateShips));
    assert!(out.is_empty());
}

#[test]
fn first_ship_size_above_the_largest_raises_it() {
    let (mut game, mut state, mut out) = created();
    assert!(handle_ships_size(&mut game, Some(&"8".to_string()), &mut state, &mut out));
    assert_eq!(game.get_shipsizes(), (8, 8));
}

#[test]
fn later_ship_size_raises_the_largest() {
    let (mut game, mut state, mut out) = created();
    assert!(handle_ships_size(&mut game, Some(&"3".to_string()), &mut state, &mut out));
    assert!(handle_ships_size(&mut game, Some(&"7".to_string()), &mut state, &mut out));
    assert_eq!(game.get_shipsizes(), (7, 7));
    assert!(handle_ships_size(&mut game, Some(&"4".to_string()), &mut state, &mut out));
    assert_eq!(game.get_shipsizes(), (4, 7));
    assert_eq!(state.iter().filter(|s| **s == StateCreate::StateShips).count(), 1);
}

#[test]
fn ship_size_of_one_is_refused_with_a_notice() {
    let (mut game, mut state, mut out) = created();
    let steps = state.clone();
    assert!(!handle_ships_size(&mut game, Some(&"1".to_string()), &mut state, &mut out));
    assert_eq!(game.get_shipsizes(), (2, 5));
    assert_eq!(state, steps);
    assert!(!has_state(&state, StateCreate::StateShips));
    assert_eq!(
        out,
        vec![Notice::ShipSizesRefused("Error: Smallest ship size must be greater than 1".to_string())]
    );
    assert_eq!(notice_message(&out[0]), "Error: Smallest ship size must be greater than 1");
}

#[test]
fn ship_size_of_one_is_refused_after_other_sizes_too() {
    let (mut game, mut state, mut out) = created();
    assert!(handle_ships_size(&mut game, Some(&"3".to_string()), &mut state, &mut out));
    let steps = state.clone();
    assert!(!handle_ships_size(&mut game, Some(&"1".to_string()), &mut state, &mut out));
    assert_eq!(game.get_shipsizes(), (3, 5));
    assert_eq!(state, steps);
    assert_eq!(out.len(), 1);
    assert!(handle_ships_size(&mut game, Some(&"2".to_string()), &mut state, &mut out));
    assert_eq!(game.get_shipsizes(), (2, 5));
}

#[test]
fn ship_size_that_is_no_size_is_noted() {
    let (mut game, mut state, mut out) = created();
    assert!(!handle_ships_size(&mut game, Some(&"0".to_string()), &mut state, &mut out));
    assert!(!handle_ships_size(&mut game, Some(&"x".to_string()), &mut state, &mut out));
    assert!(!handle_ships_size(&mut game, Some(&"99999".to_string()), &mut state, &mut out));
    assert_eq!(
        out,
        vec![
            Notice::ShipsValue(RowColErr::TooSmall),
            Notice::ShipsValue(RowColErr::Failed),
            Notice::ShipsValue(RowColErr::TooBig),
        ]
    );
    assert_eq!(game.get_shipsizes(), (2, 5));
    assert!(!has_state(&state, StateCreate::StateShips));
}

#[test]
fn ship_size_without_a_value_changes_nothing() {
    let (mut game, mut state, mut out) = created();
    assert!(handle_ships_size(&mut game, None, &mut state, &mut out));
    assert_eq!(game.get_shipsizes(), (2, 5));
    assert!(!has_state(&state, StateCreate::StateShips));
    assert!(out.is_empty());
}

#[test]
fn commands_begin_with_two_hyphens() {
    assert!(looks_like_command("--random"));
    assert!(looks_like_command("--"));
    assert!(!looks_like_command("-x"));
    assert!(!looks_like_command("Alice"));
    assert!(!looks_like_command(""));
    assert!(!looks_like_command("a--"));
}

#[test]
fn player_needs_a_created_game() {
    let mut game = GameData::default();
    let mut state = Vec::new();
    let mut out = Vec::new();
    assert!(!handle_player(&mut game, Some(&"Alice".to_string()), &mut state, &mut out));
    assert_eq!(out, vec![Notice::PlayerWithoutCreate]);
    assert_eq!(game.get_boards_len(), 0);
}

#[test]
fn player_is_added_with_name_and_number() {
    let (mut game, mut state, mut out) = created();
    assert!(handle_player(&mut game, Some(&"Alice".to_string()), &mut state, &mut out));
    assert!(handle_player(&mut game, Some(&"Bob".to_string()), &mut state, &mut out));
    assert_eq!(game.get_boards_len(), 2);
    assert_eq!(game.get_playercount(), 3);
    let alice = game.boards_get_player(0).unwrap();
    assert_eq!(alice.get_playername(), "Alice");
    assert_eq!(alice.get_playernum(), 1);
    assert!(alice.return_ships().is_empty());
    let bob = game.boards_get_last().unwrap();
    assert_eq!(bob.get_playername(), "Bob");
    assert_eq!(bob.get_playernum(), 2);
    assert!(has_state(&state, StateCreate::StatePlayer));
    assert!(out.is_empty());
}

#[test]
fn player_without_a_name_is_noted() {
    let (mut game, mut state, mut out) = created();
    assert!(!handle_player(&mut game, None, &mut state, &mut out));
    assert!(!handle_player(&mut game, Some(&"--random".to_string()), &mut state, &mut out));
    assert_eq!(out, vec![Notice::EmptyPlayerName, Notice::CommandForPlayerName("--random".to_string())]);
    assert_eq!(game.get_boards_len(), 0);
    assert_eq!(game.get_playercount(), 1);
    assert!(!has_state(&state, StateCreate::StatePlayer));
}

#[test]
fn openings_are_found_with_their_directions() {
    let mut game = GameData::default();
    game.set_col_row(3, 2).unwrap();
    let mut player = PlayBoard::default();
    let found = find_valid_positions(&game, &player, 2);
    // The cells are numbered in reading order: (0, 0), (1, 0), (2, 0), (0, 1), (1, 1), (2, 1).
    let mut keys: Vec<usize> = found.keys().copied().collect();
    keys.sort();
    assert_eq!(keys, vec![0, 1, 2, 3, 4]);
    assert_eq!(found[&0], vec![Direction::Horizontal, Direction::Vertical]);
    assert_eq!(found[&2], vec![Direction::Vertical]);
    assert_eq!(found[&3], vec![Direction::Horizontal]);
    let ship = ShipBoundingBox::new(3, (0, 0), Direction::Horizontal, &game, &player).unwrap();
    assert!(player.add_ship(ship));
    let found = find_valid_positions(&game, &player, 2);
    let mut keys: Vec<usize> = found.keys().copied().collect();
    keys.sort();
    assert_eq!(keys, vec![3, 4]);
    assert_eq!(found[&3], vec![Direction::Horizontal]);
    assert_eq!(find_valid_positions(&game, &player, 3).len(), 1);
    assert!(find_valid_positions(&game, &player, 4).is_empty());
    assert!(find_valid_positions(&game, &player, 0).is_empty());
    assert!(find_valid_positions(&game, &player, usize::MAX).is_empty());
}

#[test]
fn cells_are_numbered_in_reading_order() {
    let mut game = GameData::default();
    game.set_col_row(3, 2).unwrap();
    assert_eq!(cell_of_key(&game, 0), (0, 0));
    assert_eq!(cell_of_key(&game, 2), (2, 0));
    assert_eq!(cell_of_key(&game, 3), (0, 1));
    assert_eq!(cell_of_key(&game, 5), (2, 1));
}

#[test]
fn keys_of_the_openings_are_all_there() {
    let game = GameData::default();
    let player = PlayBoard::default();
    let found = find_valid_positions(&game, &player, 10);
    let mut keys = opening_keys(&found);
    keys.sort();
    // A ship of ten cells fits from the first column across, or from the first row down.
    let mut expected: Vec<usize> = (0..10).chain((1..10).map(|row| row * 10)).collect();
    expected.sort();
    assert_eq!(keys, expected);
    assert!(opening_keys(&find_valid_positions(&game, &player, 11)).is_empty());
}

#[test]
fn picked_opening_is_free() {
    let mut game = GameData::default();
    game.set_col_row(4, 3).unwrap();
    let mut player = PlayBoard::default();
    let ship = ShipBoundingBox::new(3, (0, 1), Direction::Horizontal, &game, &player).unwrap();
    assert!(player.add_ship(ship));
    let found = find_valid_positions(&game, &player, 2);
    let mut seen = std::collections::HashSet::new();
    for _ in 0..400 {
        let (origin, direction) = pick_opening(&game, &player, 2, &found).unwrap();
        assert!(ShipBoundingBox::new(2, origin, direction, &game, &player).is_some());
        seen.insert((origin, direction == Direction::Horizontal));
    }
    // Across in rows 0 and 2 from columns 0 to 2, down from (3, 0) and (3, 1).
    assert_eq!(seen.len(), 8);
    let none = find_valid_positions(&game, &player, 4);
    assert_eq!(none.len(), 2);
    let full = find_valid_positions(&game, &player, 5);
    assert_eq!(pick_opening(&game, &player, 5, &full), None);
}

#[test]
fn chosen_ship_is_placed_and_noted() {
    let game = GameData::default();
    let mut player = PlayBoard::default();
    let mut out = Vec::new();
    assert!(place_chosen(&game, &mut player, 3, (2, 4), Direction::Horizontal, &mut out));
    assert_eq!(out, vec![Notice::ShipAdded { size: 3, col: 2, row: 4 }]);
    assert_eq!(player.return_ships().len(), 1);
    assert_eq!(player.return_ships()[0].end(), (4, 4));
    assert!(!place_chosen(&game, &mut player, 4, (4, 4), Direction::Vertical, &mut out));
    assert!(!place_chosen(&game, &mut player, 3, (0, 0), Direction::Vertical, &mut out));
    assert!(!place_chosen(&game, &mut player, 5, (9, 9), Direction::Vertical, &mut out));
    assert_eq!(out.len(), 1);
    assert_eq!(player.return_ships().len(), 1);
}

#[test]
fn random_layout_needs_a_player() {
    let (mut game, mut state, mut out) = created();
    assert!(!handle_random(&mut game, &mut state, &mut out));
    assert_eq!(out, vec![Notice::NoPlayerUnderCreation]);
    state.push(StateCreate::StatePlayer);
    out.clear();
    assert!(!handle_random(&mut game, &mut state, &mut out));
    assert!(out.is_empty());
}

#[test]
fn random_layout_places_one_ship_of_each_size() {
    for _ in 0..50 {
        let (mut game, mut state, mut out) = with_player(10, 10);
        assert!(handle_random(&mut game, &mut state, &mut out));
        assert_eq!(game.get_boards_len(), 1);
        let player = game.boards_get_last().unwrap();
        assert_eq!(player.get_playername(), "Alice");
        let ships = player.return_ships();
        let ids: Vec<usize> = ships.iter().map(|s| s.ship_id()).collect();
        assert_eq!(ids, vec![5, 4, 3, 2]);
        for s in ships.iter() {
            let (start, end) = (s.start(), s.end());
            assert!(end.0 < 10 && end.1 < 10);
            assert_eq!((end.0 - start.0) + (end.1 - start.1) + 1, s.ship_id());
            assert!(start.0 == end.0 || start.1 == end.1);
        }
        for row in 0..10usize {
            for col in 0..10usize {
                assert!(ships.iter().filter(|s| s.point_in_ship(row, col)).count() <= 1);
            }
        }
        let noted: Vec<Notice> = ships
            .iter()
            .map(|s| Notice::ShipAdded { size: s.ship_id(), col: s.start().0, row: s.start().1 })
            .collect();
        assert_eq!(out, noted);
    }
}

#[test]
fn random_layout_varies() {
    let mut starts = std::collections::HashSet::new();
    for _ in 0..100 {
        let (mut game, mut state, mut out) = with_player(10, 10);
        assert!(handle_random(&mut game, &mut state, &mut out));
        starts.insert(game.boards_get_last().unwrap().return_ships()[0].start());
    }
    assert!(starts.len() > 1);
}

#[test]
fn random_layout_on_a_small_grid_warns() {
    let (mut game, mut state, mut out) = with_player(3, 3);
    assert!(handle_random(&mut game, &mut state, &mut out));
    assert!(out.contains(&Notice::NoSpaceForShip(5)));
    assert!(out.contains(&Notice::NoSpaceForShip(4)));
    assert_eq!(out.len(), 4);
    let ships = game.boards_get_last().unwrap().return_ships();
    assert!(ships.len() <= 2);
    for s in ships.iter() {
        assert!(s.end().0 < 3 && s.end().1 < 3);
    }
}

#[test]
fn random_layout_on_a_single_cell_warns_for_every_size() {
    let (mut game, mut state, mut out) = with_player(1, 1);
    assert!(handle_random(&mut game, &mut state, &mut out));
    assert_eq!(
        out,
        vec![
            Notice::NoSpaceForShip(5),
            Notice::NoSpaceForShip(4),
            Notice::NoSpaceForShip(3),
            Notice::NoSpaceForShip(2),
        ]
    );
    assert!(game.boards_get_last().unwrap().return_ships().is_empty());
}

#[test]
fn random_layout_fills_what_it_can() {
    // A grid of two by two has room for the ship of two cells only.
    let (mut game, mut state, mut out) = with_player(2, 2);
    assert!(handle_random(&mut game, &mut state, &mut out));
    assert_eq!(out.len(), 4);
    assert_eq!(out[0], Notice::NoSpaceForShip(5));
    assert_eq!(out[1], Notice::NoSpaceForShip(4));
    assert_eq!(out[2], Notice::NoSpaceForShip(3));
    let ships = game.boards_get_last().unwrap().return_ships();
    assert_eq!(ships.len(), 1);
    assert_eq!(ships[0].ship_id(), 2);
}

#[test]
fn random_layout_passes_over_a_size_that_the_player_has() {
    let (mut game, mut state, mut out) = with_player(10, 10);
    assert!(handle_place_ship(&mut game, &strings(&["4:A1:H"]), &mut state, &mut out));
    assert!(handle_random(&mut game, &mut state, &mut out));
    let ids: Vec<usize> = game.boards_get_last().unwrap().return_ships().iter().map(|s| s.ship_id()).collect();
    assert_eq!(ids, vec![4, 5, 3, 2]);
    assert_eq!(out.len(), 3);
}

#[test]
fn stray_characters_are_found() {
    let chars = |s: &str| s.chars().collect::<Vec<char>>();
    assert!(!holds_stray(&chars("B7")));
    assert!(!holds_stray(&chars(" B 7\t")));
    assert!(!holds_stray(&chars("")));
    assert!(holds_stray(&chars("B-7")));
    assert!(holds_stray(&chars("b7")));
    assert!(holds_stray(&chars("B7!")));
}

#[test]
fn placement_is_read() {
    assert_eq!(parse_entry("3:B7:H", 2, 5), Ok((3, (1, 7), Direction::Horizontal)));
    assert_eq!(parse_entry("3:b7:h", 2, 5), Ok((3, (1, 7), Direction::Horizontal)));
    assert_eq!(parse_entry("5:BC12:v", 2, 5), Ok((5, (28, 12), Direction::Vertical)));
    assert_eq!(parse_entry("2: A 1 :V", 2, 5), Ok((2, (0, 1), Direction::Vertical)));
}

#[test]
fn placement_errors_come_in_order() {
    assert_eq!(parse_entry("3:B7", 2, 5), Err(Notice::InvalidShipFormat));
    assert_eq!(parse_entry("3:B7:H:x", 2, 5), Err(Notice::InvalidShipFormat));
    assert_eq!(parse_entry("", 2, 5), Err(Notice::InvalidShipFormat));
    assert_eq!(parse_entry("x:?:?", 2, 5), Err(Notice::InvalidShipSize));
    assert_eq!(parse_entry("0:B7:H", 2, 5), Err(Notice::InvalidShipSize));
    assert_eq!(parse_entry("1:?:?", 2, 5), Err(Notice::ShipSizeOutOfRange));
    assert_eq!(parse_entry("6:B7:H", 2, 5), Err(Notice::ShipSizeOutOfRange));
    assert_eq!(parse_entry("3:7:?", 2, 5), Err(Notice::Query(QueryError::InvalidFormat)));
    assert_eq!(parse_entry("3:B:?", 2, 5), Err(Notice::Query(QueryError::InvalidFormat)));
    assert_eq!(
        parse_entry("3:B99999999999999999999999:?", 2, 5),
        Err(Notice::Query(QueryError::InvalidRow))
    );
    assert_eq!(
        parse_entry("3:ZZZZZZZZZZZZZZZZZZZZZZ7:?", 2, 5),
        Err(Notice::Query(QueryError::InvalidColumn))
    );
    assert_eq!(parse_entry("3:B-7:?", 2, 5), Err(Notice::InvalidShipEntry));
    assert_eq!(parse_entry("3:B0:?", 2, 5), Err(Notice::InvalidRowNumber));
    assert_eq!(parse_entry("3:B40000:?", 2, 5), Err(Notice::InvalidRowNumber));
    assert_eq!(parse_entry("3:B7:?", 2, 5), Err(Notice::InvalidDirection));
    assert_eq!(parse_entry("3:B7:HV", 2, 5), Err(Notice::InvalidDirection));
    assert_eq!(parse_entry("3:B7:", 2, 5), Err(Notice::InvalidDirection));
}

#[test]
fn request_is_read_from_fields_in_upper_case() {
    let parts: Vec<Vec<char>> = ["3", "b7", "h"].iter().map(|s| s.chars().collect()).collect();
    assert_eq!(read_request(&parts, "B7", "H", 2, 5), Ok((3, (1, 7), Direction::Horizontal)));
    assert_eq!(read_request(&parts, "b7", "H", 2, 5), Err(Notice::Query(QueryError::InvalidFormat)));
    assert_eq!(read_request(&parts, "B7", "h", 2, 5), Err(Notice::InvalidDirection));
}

#[test]
fn request_is_placed_for_the_last_player() {
    let (mut game, _state, mut out) = with_player(10, 10);
    assert!(place_request(&mut game, 3, (2, 4), Direction::Horizontal, &mut out));
    assert!(out.is_empty());
    assert!(!place_request(&mut game, 4, (4, 4), Direction::Vertical, &mut out));
    assert_eq!(out, vec![Notice::ShipNotCreated]);
    assert_eq!(game.get_boards_len(), 1);
    let player = game.boards_get_last().unwrap();
    assert_eq!(player.get_playername(), "Alice");
    assert_eq!(player.return_ships().len(), 1);
    assert_eq!(player.return_ships()[0].end(), (4, 4));
}

#[test]
fn request_without_a_player_is_noted() {
    let mut game = GameData::default();
    let mut out = Vec::new();
    assert!(!place_request(&mut game, 3, (2, 4), Direction::Horizontal, &mut out));
    assert_eq!(out, vec![Notice::NoPlayerAvailable]);
}

#[test]
fn placements_stop_at_the_first_that_fails() {
    let (mut game, _state, mut out) = with_player(10, 10);
    let data = strings(&["3:C4:H", "4:E4:V", "2:A1:H"]);
    assert!(!process_ship_data(data, &mut game, &mut out));
    assert_eq!(out, vec![Notice::ShipNotCreated]);
    let ids: Vec<usize> = game.boards_get_last().unwrap().return_ships().iter().map(|s| s.ship_id()).collect();
    assert_eq!(ids, vec![3]);
    out.clear();
    assert!(!process_ship_data(strings(&["4:F4:V", "9:A1:H", "2:A1:H"]), &mut game, &mut out));
    assert_eq!(out, vec![Notice::ShipSizeOutOfRange]);
    let ids: Vec<usize> = game.boards_get_last().unwrap().return_ships().iter().map(|s| s.ship_id()).collect();
    assert_eq!(ids, vec![3, 4]);
    out.clear();
    assert!(process_ship_data(strings(&["2:A1:H", "5:j5:v"]), &mut game, &mut out));
    assert!(process_ship_data(Vec::new(), &mut game, &mut out));
    assert!(out.is_empty());
    let ships = game.boards_get_last().unwrap().return_ships();
    assert_eq!(ships.len(), 4);
    assert_eq!((ships[3].ship_id(), ships[3].start(), ships[3].end()), (5, (9, 5), (9, 9)));
}

#[test]
fn place_needs_a_created_game_and_a_player() {
    let (mut game, mut state, mut out) = created();
    assert!(!handle_place_ship(&mut game, &strings(&["3:C4:H"]), &mut state, &mut out));
    assert_eq!(out, vec![Notice::PlaceWithoutPlayer]);
    let mut game = GameData::default();
    let mut state = vec![StateCreate::StatePlayer];
    let mut out = Vec::new();
    assert!(!handle_place_ship(&mut game, &strings(&["3:C4:H"]), &mut state, &mut out));
    assert_eq!(out, vec![Notice::PlaceWithoutPlayer]);
}

#[test]
fn place_refuses_arguments_that_are_no_placements() {
    let (mut game, mut state, mut out) = with_player(10, 10);
    assert!(!handle_place_ship(&mut game, &strings(&["3:C4:H", "--random"]), &mut state, &mut out));
    assert!(!handle_place_ship(&mut game, &strings(&["3:C4:H", "C4"]), &mut state, &mut out));
    assert!(!handle_place_ship(&mut game, &strings(&["--x:y", "C4"]), &mut state, &mut out));
    assert_eq!(out, vec![Notice::NoShipStatus, Notice::BadPlacementFormat, Notice::NoShipStatus]);
    assert!(game.boards_get_last().unwrap().return_ships().is_empty());
}

#[test]
fn place_carries_out_the_placements() {
    let (mut game, mut state, mut out) = with_player(10, 10);
    assert!(handle_place_ship(&mut game, &strings(&["3:C4:H", "4:F4:V"]), &mut state, &mut out));
    assert!(out.is_empty());
    let ships = game.boards_get_last().unwrap().return_ships();
    assert_eq!(ships.len(), 2);
    assert_eq!((ships[0].ship_id(), ships[0].start(), ships[0].end()), (3, (2, 4), (4, 4)));
    assert_eq!((ships[1].ship_id(), ships[1].start(), ships[1].end()), (4, (5, 4), (5, 7)));
    // A placement that fails is noted, and the command fails.
    assert!(!handle_place_ship(&mut game, &strings(&["2:E4:V"]), &mut state, &mut out));
    assert_eq!(out, vec![Notice::ShipNotCreated]);
    assert_eq!(game.boards_get_last().unwrap().return_ships().len(), 2);
    out.clear();
    // Off the grid: column J is column 9, and the ship would end in column 10.
    assert!(!handle_place_ship(&mut game, &strings(&["5:A1:H", "2:J1:H", "2:A9:H"]), &mut state, &mut out));
    assert_eq!(out, vec![Notice::ShipNotCreated]);
    let ids: Vec<usize> = game.boards_get_last().unwrap().return_ships().iter().map(|s| s.ship_id()).collect();
    assert_eq!(ids, vec![3, 4, 5]);
}

#[test]
fn trials_need_a_player() {
    let (mut game, mut state, mut out) = created();
    assert!(!handle_random_retry(&mut game, &mut state, &mut out));
    assert_eq!(out, vec![Notice::NoPlayerUnderCreation]);
    state.push(StateCreate::StatePlayer);
    out.clear();
    assert!(!handle_random_retry(&mut game, &mut state, &mut out));
    assert!(out.is_empty());
}

#[test]
fn trials_place_the_ships_from_the_smallest_on() {
    for _ in 0..20 {
        let (mut game, mut state, mut out) = with_player(10, 10);
        assert!(handle_random_retry(&mut game, &mut state, &mut out));
        let ships = game.boards_get_last().unwrap().return_ships();
        let ids: Vec<usize> = ships.iter().map(|s| s.ship_id()).collect();
        assert_eq!(ids, vec![2, 3, 4, 5]);
        for s in ships.iter() {
            assert!(s.end().0 < 10 && s.end().1 < 10);
        }
        for row in 0..10usize {
            for col in 0..10usize {
                assert!(ships.iter().filter(|s| s.point_in_ship(row, col)).count() <= 1);
            }
        }
        let noted: Vec<Notice> = ships
            .iter()
            .map(|s| Notice::ShipAdded { size: s.ship_id(), col: s.start().0, row: s.start().1 })
            .collect();
        assert_eq!(out, noted);
    }
}

#[test]
fn trials_on_a_small_grid_give_up_with_a_warning() {
    let (mut game, mut state, mut out) = with_player(3, 3);
    assert!(handle_random_retry(&mut game, &mut state, &mut out));
    assert_eq!(out.last(), Some(&Notice::PlacementGaveUp));
    let ships = game.boards_get_last().unwrap().return_ships();
    assert!(ships.len() <= 2);
    assert_eq!(out.len(), ships.len() + 1);
    for (j, s) in ships.iter().enumerate() {
        assert_eq!(s.ship_id(), 2 + j);
        assert!(s.end().0 < 3 && s.end().1 < 3);
    }
}

#[test]
fn trials_on_a_single_cell_give_up_at_once() {
    let (mut game, mut state, mut out) = with_player(1, 1);
    assert!(handle_random_retry(&mut game, &mut state, &mut out));
    assert_eq!(out, vec![Notice::PlacementGaveUp]);
    assert!(game.boards_get_last().unwrap().return_ships().is_empty());
    assert_eq!(notice_message(&out[0]), "Warning: Could not place all ships after multiple attempts.");
}

#[test]
fn placement_off_the_grid_is_refused_and_nothing_is_placed() {
    let mut game = GameData::default();
    game.boards_add(PlayBoard::default());
    let mut out = Vec::new();
    // Column I is column 8: a ship of three cells would end in column 10.
    assert!(!process_ship_data(strings(&["3:I1:H"]), &mut game, &mut out));
    assert_eq!(out, vec![Notice::ShipNotCreated]);
    assert_eq!(game.get_boards_len(), 1);
    assert!(game.boards_get_last().unwrap().return_ships().is_empty());
    assert!(process_ship_data(strings(&["3:H1:H"]), &mut game, &mut out));
    assert_eq!(game.boards_get_last().unwrap().return_ships()[0].end(), (9, 1));
}

#[test]
fn trial_places_the_drawn_ship_or_counts_the_failure() {
    let game = GameData::default();
    let mut player = PlayBoard::default();
    let mut out = Vec::new();
    // An even number stands for a horizontal ship.
    assert_eq!(retry_step(&game, &mut player, 3, (2, 4, 0), 7, &mut out), (true, 0));
    assert_eq!(player.return_ships()[0].end(), (4, 4));
    assert_eq!(out, vec![Notice::ShipAdded { size: 3, col: 2, row: 4 }]);
    // An odd number stands for a vertical ship.
    assert_eq!(retry_step(&game, &mut player, 4, (6, 2, 1), 7, &mut out), (true, 0));
    assert_eq!(player.return_ships()[1].end(), (6, 5));
    // Off the grid, on a ship, identifier in use: each counts as a failure.
    assert_eq!(retry_step(&game, &mut player, 5, (6, 0, 100), 0, &mut out), (false, 1));
    assert_eq!(retry_step(&game, &mut player, 5, (4, 0, 57), 41, &mut out), (false, 42));
    assert_eq!(retry_step(&game, &mut player, 3, (0, 9, 2), 98, &mut out), (false, 99));
    assert_eq!(retry_step(&game, &mut player, 5, (0, 9, 2), 99, &mut out), (true, 0));
    assert_eq!(player.return_ships().len(), 3);
    assert_eq!(out.len(), 3);
}

#[test]
fn drawn_trial_lies_on_the_grid() {
    let mut game = GameData::default();
    game.set_col_row(3, 2).unwrap();
    let mut seen_cols = [false; 3];
    let mut seen_rows = [false; 2];
    let mut even = false;
    let mut odd = false;
    for _ in 0..500 {
        let (col, row, number) = draw_trial(&game);
        assert!(col < 3 && row < 2 && number <= 100);
        seen_cols[col] = true;
        seen_rows[row] = true;
        if number % 2 == 0 {
            even = true;
        } else {
            odd = true;
        }
    }
    assert_eq!(seen_cols, [true, true, true]);
    assert_eq!(seen_rows, [true, true]);
    assert!(even && odd);
}
