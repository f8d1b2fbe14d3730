use blobwar::board::Board;
use blobwar::configuration::{Configuration, Movement};
use blobwar::positions::Positions;
use blobwar::strategy::alphabeta::{alpha_beta, alpha_beta_sorted};
use blobwar::strategy::minmax::{min_max, min_max_with_avg, neg_max, pexpectimax};
use blobwar::strategy::{MinMax, Strategy};

fn sample() -> Vec<Configuration> {
    let holes = Board::new(Positions::full().without(18).without(45));
    let mut all = Vec::new();
    for board in [Board::default(), holes] {
        let mut state = Configuration::new(&board);
        all.push(state);
        for step in 0..12 {
            let moves = state.movements();
            if moves.is_empty() {
                break;
            }
            state = state.play(&moves[(step * 11 + 2) % moves.len()]);
            all.push(state);
        }
    }
    all
}

/// The score of each action for the side that takes it, from a search of the whole tree.
fn replies(depth: u8, state: &Configuration) -> Vec<(Movement, i8, i8, i8)> {
    state
        .movements()
        .into_iter()
        .map(|m| {
            let child = state.play(&m);
            let (score, mean, _) = min_max_with_avg(depth - 1, &child, false);
            (m, -score, -mean, child.value())
        })
        .collect()
}

#[test]
fn the_earliest_best_action_is_chosen_in_listed_order() {
    for state in sample() {
        for depth in 1..4u8 {
            let all = replies(depth, &state);
            let top = all.iter().map(|r| r.1).max();
            let first = all.iter().find(|r| Some(r.1) == top).map(|r| r.0);
            let last = all.iter().rev().find(|r| Some(r.1) == top).map(|r| r.0);
            assert_eq!(min_max(depth, &state), (top.unwrap_or(state.value()), first));
            assert_eq!(alpha_beta(depth, &state, -127, 127).1, first);
            assert_eq!(neg_max(depth, &state).1, last);
        }
    }
}

#[test]
fn the_best_looking_best_action_is_chosen_in_sorted_order() {
    for state in sample() {
        for depth in 1..4u8 {
            let all = replies(depth, &state);
            let top = all.iter().map(|r| r.1).max();
            let mut best: Option<(i8, Movement)> = None;
            for r in all.iter().filter(|r| Some(r.1) == top) {
                if best.map_or(true, |b| r.3 < b.0) {
                    best = Some((r.3, r.0));
                }
            }
            let found = alpha_beta_sorted(depth, &state, -127, 127);
            assert_eq!(found.1, best.map(|b| b.1));
            assert_eq!(found.0, top.unwrap_or(state.value()));
        }
    }
}

#[test]
fn ties_go_to_the_greater_mean() {
    for state in sample() {
        for depth in 1..4u8 {
            let all = replies(depth, &state);
            let mut kept: Option<(i8, i8, Movement)> = None;
            let mut sum = 0i32;
            for r in &all {
                let better = match kept {
                    None => true,
                    Some((score, mean, _)) => r.1 > score || (r.1 == score && r.2 > mean),
                };
                if better {
                    kept = Some((r.1, r.2, r.0));
                }
                sum += r.1 as i32;
            }
            let found = pexpectimax(depth, &state, true);
            assert_eq!(found.2, kept.map(|k| k.2));
            assert_eq!(MinMax(depth).compute_next_move(&state), found.2);
            if !all.is_empty() {
                assert_eq!(found.0, kept.unwrap().0);
                assert_eq!(found.1 as i32, sum / all.len() as i32);
            }
            let plain = pexpectimax(depth, &state, false);
            assert_eq!(plain.2, min_max(depth, &state).1);
        }
    }
}

#[test]
fn mean_of_two_jumps() {
    // Red's only blob can jump to two cells: next to a blue blob, which it converts, or away.
    let mut cells = Positions::empty();
    for c in [0u8, 2, 3, 16, 63] {
        cells = cells.with(c);
    }
    let board = Board::new(cells);
    let red = Positions::empty().with(0);
    let blue = Positions::empty().with(3).with(63);
    let state = Configuration::with_blobs(&board, red, blue, false).unwrap();
    assert_eq!(state.movements(), vec![Movement::Jump(0, 2), Movement::Jump(0, 16)]);
    // The scores are +1 and -1: the mean is 0.
    assert_eq!(min_max_with_avg(1, &state, true), (1, 0, Some(Movement::Jump(0, 2))));
}

#[test]
fn negative_means_round_towards_zero() {
    let mut seen = 0;
    for state in sample() {
        for depth in 1..4u8 {
            let all = replies(depth, &state);
            let sum: i32 = all.iter().map(|r| r.1 as i32).sum();
            let n = all.len() as i32;
            if n > 0 && sum < 0 && sum % n != 0 {
                seen += 1;
                let found = min_max_with_avg(depth, &state, true);
                assert_eq!(found.1 as i32, -((-sum) / n));
                assert_eq!(found.1 as i32, sum.div_euclid(n) + 1);
            }
        }
    }
    assert!(seen > 0);
}
