use battleship::board::{GameData, PlayBoard, ShipBoundingBox};
use battleship::enums::Direction;

fn place(player: &mut PlayBoard, id: usize, start: (usize, usize), direction: Direction) -> bool {
    let board = GameData::default();
    match ShipBoundingBox::new(id, start, direction, &board, player) {
        Some(ship) => player.add_ship(ship),
        None => false,
    }
}

#[test]
fn new_player_is_empty() {
    let player = PlayBoard::default();
    assert_eq!(player.get_playername(), "");
    assert_eq!(player.get_playernum(), 0);
    assert!(player.return_ships().is_empty());
    assert_eq!(player.get_largest_ship_id(), None);
    assert!(!player.player_has_ship_id(2));
}

#[test]
fn name_and_number_are_kept() {
    let mut player = PlayBoard::default();
    player.set_playername("Alice".to_string());
    player.set_playernum(3);
    assert_eq!(player.get_playername(), "Alice");
    assert_eq!(player.get_playernum(), 3);
    assert!(place(&mut player, 2, (0, 0), Direction::Horizontal));
    player.set_playername("Bob".to_string());
    assert_eq!(player.get_playername(), "Bob");
    assert_eq!(player.return_ships().len(), 1);
    assert!(player.player_has_ship_id(2));
}

#[test]
fn added_ship_is_known_by_its_id() {
    let mut player = PlayBoard::default();
    assert!(place(&mut player, 3, (2, 4), Direction::Horizontal));
    assert!(player.player_has_ship_id(3));
    assert!(!player.player_has_ship_id(4));
    assert_eq!(player.return_ships().len(), 1);
    assert_eq!(player.return_ships()[0].ship_id(), 3);
}

#[test]
fn add_ship_refuses_a_second_ship_with_the_id() {
    let board = GameData::default();
    let empty = PlayBoard::default();
    let first = ShipBoundingBox::new(3, (0, 0), Direction::Horizontal, &board, &empty).unwrap();
    let second = ShipBoundingBox::new(3, (0, 5), Direction::Horizontal, &board, &empty).unwrap();
    let mut player = PlayBoard::default();
    assert!(player.add_ship(first));
    assert!(!player.add_ship(second));
    assert_eq!(player.return_ships().len(), 1);
    assert_eq!(player.return_ships()[0], first);
}

#[test]
fn add_ship_refuses_a_ship_on_an_occupied_cell() {
    let board = GameData::default();
    let empty = PlayBoard::default();
    let first = ShipBoundingBox::new(3, (2, 4), Direction::Horizontal, &board, &empty).unwrap();
    let crossing = ShipBoundingBox::new(4, (4, 4), Direction::Vertical, &board, &empty).unwrap();
    let clear = ShipBoundingBox::new(4, (5, 4), Direction::Vertical, &board, &empty).unwrap();
    let mut player = PlayBoard::default();
    assert!(player.add_ship(first));
    assert!(!player.add_ship(crossing));
    assert!(!player.player_has_ship_id(4));
    assert!(player.add_ship(clear));
    assert!(player.player_has_ship_id(4));
    assert_eq!(player.return_ships().len(), 2);
}

#[test]
fn ships_never_share_a_cell() {
    let board = GameData::default();
    let mut player = PlayBoard::default();
    for id in 1..=6usize {
        for col in 0..10usize {
            for row in 0..10usize {
                for direction in [Direction::Vertical, Direction::Horizontal] {
                    if let Some(ship) = ShipBoundingBox::new(id, (col, row), direction, &board, &player) {
                        player.add_ship(ship);
                    }
                }
            }
        }
    }
    let ships = player.return_ships();
    assert_eq!(ships.len(), 6);
    for row in 0..10usize {
        for col in 0..10usize {
            let holders = ships.iter().filter(|s| s.point_in_ship(row, col)).count();
            assert!(holders <= 1);
        }
    }
}

#[test]
fn either_order_of_two_clear_ships_gives_the_same_answers() {
    let board = GameData::default();
    let empty = PlayBoard::default();
    let a = ShipBoundingBox::new(3, (2, 4), Direction::Horizontal, &board, &empty).unwrap();
    let b = ShipBoundingBox::new(4, (6, 2), Direction::Vertical, &board, &empty).unwrap();
    let mut first = PlayBoard::default();
    assert!(first.add_ship(a));
    assert!(first.add_ship(b));
    let mut second = PlayBoard::default();
    assert!(second.add_ship(b));
    assert!(second.add_ship(a));
    for size in 1..=5usize {
        assert_eq!(first.player_has_ship_id(size), second.player_has_ship_id(size));
        for col in 0..10usize {
            for row in 0..10usize {
                for direction in [Direction::Vertical, Direction::Horizontal] {
                    assert_eq!(
                        first.check_collision((col, row), size, direction),
                        second.check_collision((col, row), size, direction)
                    );
                    assert_eq!(
                        ShipBoundingBox::new(size, (col, row), direction, &board, &first).is_some(),
                        ShipBoundingBox::new(size, (col, row), direction, &board, &second).is_some()
                    );
                }
            }
        }
    }
    for row in 0..10usize {
        for col in 0..10usize {
            assert_eq!(first.handle_shot(row, col), second.handle_shot(row, col));
        }
    }
}

#[test]
fn check_collision_tells_whether_a_candidate_hits_a_ship() {
    let mut player = PlayBoard::default();
    assert!(!player.check_collision((0, 0), 3, Direction::Horizontal));
    assert!(place(&mut player, 3, (2, 4), Direction::Horizontal));
    assert!(player.check_collision((4, 4), 4, Direction::Vertical));
    assert!(player.check_collision((4, 2), 3, Direction::Vertical));
    assert!(!player.check_collision((4, 2), 2, Direction::Vertical));
    assert!(!player.check_collision((5, 4), 4, Direction::Vertical));
    assert!(player.check_collision((0, 4), 3, Direction::Horizontal));
    assert!(!player.check_collision((0, 4), 2, Direction::Horizontal));
}

#[test]
fn shot_on_a_ship_is_a_hit() {
    let mut player = PlayBoard::default();
    assert!(place(&mut player, 3, (2, 4), Direction::Horizontal));
    assert!(place(&mut player, 4, (6, 2), Direction::Vertical));
    assert_eq!(player.handle_shot(4, 2), Some(3));
    assert_eq!(player.handle_shot(4, 4), Some(3));
    assert_eq!(player.handle_shot(4, 5), None);
    assert_eq!(player.handle_shot(2, 6), Some(4));
    assert_eq!(player.handle_shot(5, 6), Some(4));
    assert_eq!(player.handle_shot(6, 6), None);
    assert_eq!(player.handle_shot(0, 0), None);
}

#[test]
fn largest_ship_id_is_the_maximum() {
    let mut player = PlayBoard::default();
    assert!(place(&mut player, 3, (0, 0), Direction::Horizontal));
    assert_eq!(player.get_largest_ship_id(), Some(3));
    assert!(place(&mut player, 5, (0, 1), Direction::Horizontal));
    assert!(place(&mut player, 2, (0, 2), Direction::Horizontal));
    assert_eq!(player.get_largest_ship_id(), Some(5));
}

#[test]
fn first_ship_is_removed_first() {
    let mut player = PlayBoard::default();
    assert!(place(&mut player, 3, (0, 0), Direction::Horizontal));
    assert!(place(&mut player, 5, (0, 1), Direction::Horizontal));
    let first = player.remove_first_ship().unwrap();
    assert_eq!(first.ship_id(), 3);
    assert!(!player.player_has_ship_id(3));
    assert!(player.player_has_ship_id(5));
    assert_eq!(player.return_ships().len(), 1);
    // The place and the id are free again.
    assert!(place(&mut player, 3, (0, 0), Direction::Horizontal));
    let second = player.remove_first_ship().unwrap();
    assert_eq!(second.ship_id(), 5);
    let third = player.remove_first_ship().unwrap();
    assert_eq!(third.ship_id(), 3);
    assert_eq!(player.remove_first_ship(), None);
    assert!(player.return_ships().is_empty());
}
