use blobwar::board::Board;
use blobwar::configuration::{Configuration, Movement};
use blobwar::positions::Positions;
use blobwar::strategy::{Greedy, Strategy};

fn cells(list: &[u8]) -> Positions {
    let mut p = Positions::empty();
    for c in list {
        p = p.with(*c);
    }
    p
}

#[test]
fn greedy_takes_the_first_of_the_best_moves() {
    let state = Configuration::new(&Board::default());
    assert_eq!(Greedy().compute_next_move(&state), Some(Movement::Duplicate(0, 1)));
}

#[test]
fn greedy_prefers_the_larger_capture() {
    let board = Board::default();
    let state = Configuration::with_blobs(&board, cells(&[0]), cells(&[3, 11, 19, 16]), false)
        .unwrap();
    // Jumping to 10 converts 3, 11 and 19; jumping to 2 converts 3 and 11 only.
    let choice = Greedy().compute_next_move(&state).unwrap();
    let best = state.movements().iter().map(|m| -state.play(m).value()).max().unwrap();
    assert_eq!(-state.play(&choice).value(), best);
    assert_eq!(best, 3);
    assert_eq!(choice, Movement::Jump(0, 10));
}

#[test]
fn greedy_keeps_still_when_nothing_improves() {
    // The only actions are jumps that convert nothing: the value stays what it is.
    let board = Board::new(cells(&[0, 2, 63]));
    let state = Configuration::with_blobs(&board, cells(&[0]), cells(&[63]), false).unwrap();
    assert_eq!(state.movements(), vec![Movement::Jump(0, 2)]);
    assert_eq!(Greedy().compute_next_move(&state), None);
}

#[test]
fn greedy_passes_when_stuck() {
    let board = Board::new(cells(&[0, 1]));
    let state = Configuration::with_blobs(&board, cells(&[0]), cells(&[1]), false).unwrap();
    assert!(!state.can_move());
    assert_eq!(Greedy().compute_next_move(&state), None);
}
