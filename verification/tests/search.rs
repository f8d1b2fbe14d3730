use blobwar::board::Board;
use blobwar::configuration::{Configuration, Movement};
use blobwar::positions::Positions;
use blobwar::strategy::alphabeta::{alpha_beta, alpha_beta_func, palpha_beta};
use blobwar::strategy::minmax::{min_max, min_max_with_avg, neg_max, pexpectimax, pneg_max};
use blobwar::strategy::{AlphaBeta, Greedy, MinMax, Strategy};

fn set_of(list: &[u8]) -> Positions {
    let mut p = Positions::empty();
    for c in list {
        p = p.with(*c);
    }
    p
}

fn opening() -> Configuration {
    Configuration::new(&Board::default())
}

/// A few plies into a game on the full board, so that captures and ties both occur.
fn midgame() -> Configuration {
    let mut state = opening();
    for _ in 0..6 {
        let moves = state.movements();
        state = state.play(&moves[moves.len() / 2]);
    }
    state
}

#[test]
fn depth_zero_returns_the_static_value_and_no_move() {
    for state in [opening(), midgame()] {
        let v = state.value();
        assert_eq!(min_max(0, &state), (v, None));
        assert_eq!(neg_max(0, &state), (v, None));
        assert_eq!(pneg_max(0, &state), (v, None));
        assert_eq!(min_max_with_avg(0, &state, true), (v, v, None));
        assert_eq!(pexpectimax(0, &state, false), (v, v, None));
        assert_eq!(alpha_beta(0, &state, -127, 127), (v, None));
        assert_eq!(alpha_beta_func(0, &state, -127, 127), (v, None));
        assert_eq!(palpha_beta(0, &state, -127, 127), (v, None));
        assert_eq!(MinMax(0).compute_next_move(&state), None);
        assert_eq!(AlphaBeta(0).compute_next_move(&state), None);
    }
}

#[test]
fn single_capturing_duplication_is_chosen_by_every_strategy() {
    let board = Board::new(set_of(&[0, 1, 2, 10]));
    let state = Configuration::with_blobs(&board, set_of(&[0]), set_of(&[2, 10]), false).unwrap();
    let only = Movement::Duplicate(0, 1);
    assert_eq!(state.movements(), vec![only]);
    assert_eq!(state.play(&only).red().len(), 4);
    assert_eq!(state.play(&only).blue().len(), 0);
    assert_eq!(Greedy().compute_next_move(&state), Some(only));
    assert_eq!(MinMax(1).compute_next_move(&state), Some(only));
    assert_eq!(AlphaBeta(1).compute_next_move(&state), Some(only));
    assert_eq!(min_max(1, &state), (4, Some(only)));
    assert_eq!(alpha_beta(1, &state, -127, 127), (4, Some(only)));
}

#[test]
fn alpha_beta_scores_match_the_full_search() {
    for state in [opening(), midgame()] {
        for depth in 0..4u8 {
            let (score, choice) = min_max(depth, &state);
            assert_eq!(alpha_beta(depth, &state, -127, 127), (score, choice));
            assert_eq!(alpha_beta_func(depth, &state, -127, 127), (score, choice));
            assert_eq!(palpha_beta(depth, &state, -127, 127).0, score);
            assert_eq!(pneg_max(depth, &state).0, score);
            assert_eq!(neg_max(depth, &state).0, score);
            assert_eq!(pexpectimax(depth, &state, true).0, score);
            assert_eq!(min_max_with_avg(depth, &state, true), pexpectimax(depth, &state, true));
            assert_eq!(AlphaBeta(depth).compute_next_move(&state), choice);
        }
    }
}

#[test]
fn parallel_choices_reach_the_best_score() {
    let state = midgame();
    let (score, _) = min_max(2, &state);
    for found in [pneg_max(2, &state), palpha_beta(2, &state, -127, 127)] {
        let chosen = found.1.unwrap();
        assert_eq!(found.0, score);
        assert_eq!(-min_max(1, &state.play(&chosen)).0, score);
    }
}

#[test]
fn narrow_window_bounds_the_score() {
    let state = midgame();
    let (exact, _) = min_max(2, &state);
    let (low, _) = alpha_beta(2, &state, exact, exact + 1);
    assert!(low <= exact && exact <= low);
    let (below, _) = alpha_beta(2, &state, exact + 2, exact + 3);
    assert!(below <= exact + 2 && exact <= below);
    let (above, _) = alpha_beta(2, &state, exact - 3, exact - 2);
    assert!(above >= exact - 2 && exact >= above);
}

#[test]
fn first_and_last_best_moves_differ_only_among_ties() {
    let state = opening();
    let (score, first) = min_max(1, &state);
    let (same, last) = neg_max(1, &state);
    assert_eq!(score, same);
    assert_eq!(score, 1);
    assert_eq!(first, Some(Movement::Duplicate(0, 1)));
    assert_eq!(last, Some(Movement::Duplicate(63, 62)));
}

#[test]
fn mean_of_the_opening_replies() {
    // Sixteen actions: six duplications worth +1 and ten jumps worth 0; 6 / 16 rounds to 0.
    let state = opening();
    assert_eq!(state.movements().len(), 16);
    assert_eq!(min_max_with_avg(1, &state, true), (1, 0, Some(Movement::Duplicate(0, 1))));
}
