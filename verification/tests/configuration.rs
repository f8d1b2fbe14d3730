use blobwar::board::Board;
use blobwar::configuration::{Configuration, Movement};
use blobwar::positions::Positions;

fn group(list: &[u8]) -> Positions {
    let mut p = Positions::empty();
    for c in list {
        p = p.with(*c);
    }
    p
}

#[test]
fn positions_behave_as_sets() {
    let a = group(&[0, 5, 63]);
    assert_eq!(a.len(), 3);
    assert!(a.contains(5) && !a.contains(6) && !a.contains(200));
    assert_eq!(a.without(5), group(&[0, 63]));
    assert_eq!(a.union(&group(&[6])), group(&[0, 5, 6, 63]));
    assert_eq!(a.intersection(&group(&[5, 7])), group(&[5]));
    assert_eq!(a.difference(&group(&[5, 7])), group(&[0, 63]));
    assert!(Positions::empty().is_empty());
    assert_eq!(Positions::full().len(), 64);
}

#[test]
fn distances_on_the_grid() {
    assert!(Board::is_adjacent(0, 9));
    assert!(!Board::is_adjacent(7, 8));
    assert!(Board::is_reachable(0, 18));
    assert!(!Board::is_reachable(0, 9));
    assert!(!Board::is_adjacent(3, 3));
    assert_eq!(Board::neighbours(0), group(&[1, 8, 9]));
    assert_eq!(Board::neighbours(27).len(), 8);
}

#[test]
fn opening_position() {
    let state = Configuration::new(&Board::default());
    assert_eq!(state.red(), group(&[0, 63]));
    assert_eq!(state.blue(), group(&[7, 56]));
    assert!(!state.current_player());
    assert!(state.can_move());
    assert!(!state.game_over());
    let holes = Board::new(Positions::full().without(0).without(7));
    let fewer = Configuration::new(&holes);
    assert_eq!(fewer.red(), group(&[63]));
    assert_eq!(fewer.blue(), group(&[56]));
}

#[test]
fn with_blobs_rejects_overlap_and_strays() {
    let board = Board::new(group(&[0, 1, 2]));
    assert!(Configuration::with_blobs(&board, group(&[0]), group(&[1]), true).is_some());
    assert!(Configuration::with_blobs(&board, group(&[0]), group(&[0]), true).is_none());
    assert!(Configuration::with_blobs(&board, group(&[3]), group(&[1]), true).is_none());
    assert!(Configuration::with_blobs(&board, group(&[0]), group(&[9]), true).is_none());
}

#[test]
fn movements_come_by_source_then_destination() {
    let board = Board::new(group(&[0, 1, 2, 8, 16]));
    let state = Configuration::with_blobs(&board, group(&[0, 8]), group(&[]), false).unwrap();
    assert_eq!(
        state.movements(),
        vec![
            Movement::Duplicate(0, 1),
            Movement::Jump(0, 2),
            Movement::Jump(0, 16),
            Movement::Duplicate(8, 1),
            Movement::Jump(8, 2),
            Movement::Duplicate(8, 16),
        ]
    );
}

#[test]
fn play_duplicates_jumps_and_captures() {
    let board = Board::default();
    let state = Configuration::with_blobs(&board, group(&[0]), group(&[2, 10, 20]), false).unwrap();
    let copy = state.play(&Movement::Duplicate(0, 1));
    assert_eq!(copy.red(), group(&[0, 1, 2, 10]));
    assert_eq!(copy.blue(), group(&[20]));
    assert!(copy.current_player());
    let jump = state.play(&Movement::Jump(0, 18));
    assert_eq!(jump.red(), group(&[18, 10]));
    assert_eq!(jump.blue(), group(&[2, 20]));
    assert_eq!(state.value(), -2);
    assert_eq!(copy.value(), -3);
    assert_eq!(jump.value(), 0);
}

#[test]
fn play_is_pure() {
    let state = Configuration::new(&Board::default());
    let before = state;
    let m = Movement::Duplicate(0, 9);
    let once = state.play(&m);
    let twice = state.play(&m);
    assert_eq!(once, twice);
    assert_eq!(state, before);
    assert_ne!(once, state);
}

#[test]
fn cells_are_accounted_for_after_every_play() {
    let board = Board::new(Positions::full().without(27).without(28));
    let mut state = Configuration::new(&board);
    for step in 0..40 {
        let moves = state.movements();
        if moves.is_empty() {
            break;
        }
        state = state.play(&moves[(step * 7) % moves.len()]);
        let total = state.red().len() + state.blue().len() + state.vacant().len();
        assert_eq!(total, 62);
        assert!(state.red().intersection(&state.blue()).is_empty());
    }
}

#[test]
fn value_changes_sign_with_the_side_to_move() {
    let board = Board::default();
    let red = group(&[0, 1, 2]);
    let blue = group(&[40]);
    let as_red = Configuration::with_blobs(&board, red, blue, false).unwrap();
    let as_blue = Configuration::with_blobs(&board, red, blue, true).unwrap();
    assert_eq!(as_red.value(), 2);
    assert_eq!(as_blue.value(), -2);
}

#[test]
fn game_over_and_can_move_are_two_questions() {
    let board = Board::default();
    let wiped = Configuration::with_blobs(&board, group(&[0]), group(&[]), false).unwrap();
    assert!(wiped.can_move());
    assert!(wiped.game_over());
    let small = Board::new(group(&[0, 1]));
    let stuck = Configuration::with_blobs(&small, group(&[0]), group(&[1]), false).unwrap();
    assert!(!stuck.can_move());
    assert!(stuck.game_over());
}
