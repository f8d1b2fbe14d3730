use blobwar::board::Board;
use blobwar::configuration::Configuration;

#[test]
fn test_addition() {
    assert_eq!(2 + 2, 4);
}

#[test]
fn test_subtraction() {
    assert_eq!(5 - 2, 3);
}

#[test]
fn opening_position_is_balanced() {
    let board = Board::default();
    let game = Configuration::new(&board);
    assert_eq!(game.value(), 0);
    assert_eq!(game.red().len(), 2);
    assert_eq!(game.blue().len(), 2);
    assert!(!game.current_player());
}
