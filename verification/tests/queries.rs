use battleship::board::GameData;
use battleship::datacheck::{query_array, row_fits};
use battleship::utils::pad_width;

fn loaded() -> GameData {
    let mut game = GameData::default();
    game.set_loaded(true);
    game
}

#[test]
fn query_needs_a_loaded_game() {
    let mut game = GameData::default();
    assert_eq!(query_array("B7", &mut game, 1), Err("Error: You have not loaded a file yet!".to_string()));
    assert_eq!(query_array("?", &mut game, 1), Err("Error: You have not loaded a file yet!".to_string()));
}

#[test]
fn query_that_names_a_cell_is_answered() {
    let mut game = loaded();
    assert_eq!(query_array("B7", &mut game, 1), Ok(1));
    assert_eq!(query_array(" AA 10 ", &mut game, 0), Ok(1));
    assert_eq!(query_array("7B", &mut game, -1), Ok(1));
    assert!(game.get_loaded());
    assert_eq!(game.get_col_row(), (10, 10));
}

#[test]
fn query_with_other_characters_has_not_the_format() {
    let mut game = loaded();
    for bad in ["b7", "B-7", "B7!", "é1"] {
        assert_eq!(query_array(bad, &mut game, 1), Err("Invalid format in query.".to_string()), "{:?}", bad);
    }
}

#[test]
fn query_without_row_or_column_is_invalid() {
    let mut game = loaded();
    assert_eq!(query_array("B", &mut game, 1), Err("Invalid query (missing row or column): B".to_string()));
    assert_eq!(query_array(" 7", &mut game, 1), Err("Invalid query (missing row or column):  7".to_string()));
    assert_eq!(query_array("", &mut game, 1), Err("Invalid query (missing row or column): ".to_string()));
}

#[test]
fn query_with_column_zero_is_invalid() {
    let mut game = loaded();
    assert_eq!(query_array("B0", &mut game, 1), Err("Invalid column number".to_string()));
    assert_eq!(query_array("B00", &mut game, 1), Err("Invalid column number".to_string()));
    assert_eq!(
        query_array("B99999999999999999999999999", &mut game, 1),
        Err("Invalid column number".to_string())
    );
}

#[test]
fn query_with_a_row_beyond_the_machine_word_has_not_the_format() {
    let mut game = loaded();
    assert_eq!(
        query_array("ZZZZZZZZZZZZZZZZZZZZZZZZ1", &mut game, 1),
        Err("Invalid format in query.".to_string())
    );
    let chars = |s: &str| s.chars().collect::<Vec<char>>();
    assert!(row_fits(&chars("ZZZZ")));
    assert!(row_fits(&chars("")));
    assert!(!row_fits(&chars("ZZZZZZZZZZZZZZZZZZZZZZZZ")));
    assert!(!row_fits(&chars("Ab")));
    assert!(!row_fits(&chars("A1")));
}

#[test]
fn pad_width_counts_the_tens() {
    assert_eq!(pad_width(0), 0);
    assert_eq!(pad_width(1), 0);
    assert_eq!(pad_width(2), 1);
    assert_eq!(pad_width(5), 1);
    assert_eq!(pad_width(10), 1);
    assert_eq!(pad_width(11), 2);
    assert_eq!(pad_width(100), 2);
    assert_eq!(pad_width(101), 3);
    assert_eq!(pad_width(32767), 5);
}

#[test]
fn pad_width_of_the_largest_number_does_not_overflow() {
    let digits = usize::MAX.to_string().len();
    assert_eq!(pad_width(usize::MAX), digits);
}
