use blobwar::board::Board;
use blobwar::configuration::{Configuration, Movement};
use blobwar::positions::Positions;
use blobwar::shmem::{decode, encode, AtomicMove};
use blobwar::strategy::alphabeta::{
    alpha_beta, alpha_beta_anytime, alpha_beta_func_memo, alpha_beta_sorted, child_outlooks,
    negascout,
};
use blobwar::strategy::memo::Memo;
use blobwar::strategy::minmax::{min_max, min_max_anytime};
use blobwar::strategy::ranking::ranking;
use blobwar::strategy::{AlphaBeta, Greedy, MinMax, Strategy};

fn blobs(list: &[u8]) -> Positions {
    let mut p = Positions::empty();
    for c in list {
        p = p.with(*c);
    }
    p
}

fn positions() -> Vec<Configuration> {
    let mut all = vec![Configuration::new(&Board::default())];
    let mut state = all[0];
    for step in 0..9 {
        let moves = state.movements();
        state = state.play(&moves[(step * 5 + 3) % moves.len()]);
        all.push(state);
    }
    all
}

#[test]
fn ranking_is_stable_and_rising() {
    assert_eq!(ranking(&vec![3, -1, 3, 0, -1]), vec![1, 4, 3, 0, 2]);
    assert_eq!(ranking(&vec![]), Vec::<usize>::new());
    assert_eq!(ranking(&vec![5]), vec![0]);
}

#[test]
fn outlooks_are_the_values_of_the_children() {
    let board = Board::default();
    let state = Configuration::with_blobs(&board, blobs(&[0]), blobs(&[2, 10, 20]), false).unwrap();
    let moves = state.movements();
    let keys = child_outlooks(&state, &moves);
    assert_eq!(keys.len(), moves.len());
    assert_eq!(moves[0], Movement::Duplicate(0, 1));
    assert_eq!(keys[0], -3);
}

#[test]
fn sorted_search_finds_the_same_score() {
    for state in positions() {
        for depth in 0..4u8 {
            let (score, _) = min_max(depth, &state);
            let (sorted_score, choice) = alpha_beta_sorted(depth, &state, -127, 127);
            assert_eq!(sorted_score, score);
            if let Some(m) = choice {
                assert_eq!(-min_max(depth - 1, &state.play(&m)).0, score);
            }
        }
    }
}

#[test]
fn sorted_search_prefers_the_best_looking_of_equal_moves() {
    let state = Configuration::new(&Board::default());
    // At depth one every duplication scores 1; they all look alike, so the first listed wins.
    assert_eq!(alpha_beta_sorted(1, &state, -127, 127), (1, Some(Movement::Duplicate(0, 1))));
}

#[test]
fn memoized_search_finds_the_same_score_and_move() {
    for state in positions() {
        let mut memo = Memo::new(&state.board());
        for depth in 0..4u8 {
            let plain = alpha_beta(depth, &state, -127, 127);
            assert_eq!(alpha_beta_func_memo(depth, &state, -127, 127, &mut memo), plain);
            // A second call is answered from the table and must not differ.
            assert_eq!(alpha_beta_func_memo(depth, &state, -127, 127, &mut memo), plain);
            assert_eq!(negascout(depth, &state, -127, 127, &mut memo), plain);
        }
    }
}

#[test]
fn memo_shared_between_depths_and_windows_stays_sound() {
    let all = positions();
    let mut memo = Memo::new(&all[0].board());
    for depth in [3u8, 1, 2, 3] {
        for state in &all {
            let (exact, _) = min_max(depth, state);
            let (narrow, _) = alpha_beta_func_memo(depth, state, exact - 1, exact + 1, &mut memo);
            assert_eq!(narrow, exact);
            let (low, _) = alpha_beta_func_memo(depth, state, exact, exact + 1, &mut memo);
            assert!(low <= exact);
            let (full, _) = alpha_beta_func_memo(depth, state, -127, 127, &mut memo);
            assert_eq!(full, exact);
        }
    }
}

#[test]
fn memo_gives_back_what_was_filed_for_the_depth() {
    let state = Configuration::new(&Board::default());
    let mut memo = Memo::new(&state.board());
    assert_eq!(memo.get(&state, 1), None);
    let (score, choice) = alpha_beta_func_memo(1, &state, -127, 127, &mut memo);
    assert_eq!(memo.get(&state, 1), Some((score, choice.unwrap())));
    assert_eq!(memo.get(&state, 2), None);
    let other = state.play(&choice.unwrap());
    assert_eq!(memo.get(&other, 1), None);
}

#[test]
fn keys_tell_states_apart() {
    let board = Board::default();
    let a = Configuration::with_blobs(&board, blobs(&[0]), blobs(&[5]), false).unwrap();
    let b = Configuration::with_blobs(&board, blobs(&[0]), blobs(&[5]), true).unwrap();
    let c = Configuration::with_blobs(&board, blobs(&[5]), blobs(&[0]), false).unwrap();
    let d = Configuration::with_blobs(&Board::new(blobs(&[0, 5])), blobs(&[0]), blobs(&[5]), false)
        .unwrap();
    assert_ne!(a.serialize(), b.serialize());
    assert_ne!(a.serialize(), c.serialize());
    assert_eq!(a.serialize(), d.serialize());
    assert_eq!(a.serialize().cells, (1u128 << 64) | (1u128 << 5));
}

#[test]
fn words_round_trip() {
    assert_eq!(encode(None), 0);
    assert_eq!(encode(Some(Movement::Duplicate(3, 4))), 0x1_0304);
    assert_eq!(encode(Some(Movement::Jump(63, 45))), 0x3_3f2d);
    for m in [None, Some(Movement::Duplicate(0, 1)), Some(Movement::Jump(63, 45))] {
        assert_eq!(decode(encode(m)), m);
    }
    assert_eq!(decode(0x0_0304), None);
}

#[test]
fn the_slot_gives_what_was_stored_last() {
    let m1 = Movement::Duplicate(0, 1);
    let m2 = Movement::Jump(9, 27);
    let mut slot = AtomicMove::new();
    assert_eq!(slot.load(), None);
    slot.store(Some(m1));
    let early_reader = AtomicMove::from_word(slot.word());
    slot.store(None);
    slot.store(Some(m2));
    let late_reader = AtomicMove::from_word(slot.word());
    assert_eq!(early_reader.load(), Some(m1));
    assert_eq!(late_reader.load(), Some(m2));
    assert_eq!(slot.load(), Some(m2));
}

#[test]
fn anytime_rounds_publish_each_depth_in_turn() {
    let state = Configuration::new(&Board::default());
    let mut slot = AtomicMove::new();
    let mut depth = 1u8;
    while depth < 4 {
        let next = alpha_beta_anytime(&state, depth, &mut slot).unwrap();
        assert_eq!(slot.load(), AlphaBeta(depth).compute_next_move(&state));
        assert_eq!(next, depth + 1);
        depth = next;
    }
    let mut other = AtomicMove::new();
    assert_eq!(min_max_anytime(&state, 2, &mut other), Some(3));
    assert_eq!(other.load(), MinMax(2).compute_next_move(&state));
}

#[test]
fn anytime_stops_at_the_limit() {
    let state = Configuration::new(&Board::default());
    let mut slot = AtomicMove::new();
    slot.store(Some(Movement::Duplicate(0, 1)));
    assert_eq!(alpha_beta_anytime(&state, 100, &mut slot), None);
    assert_eq!(alpha_beta_anytime(&state, 0, &mut slot), None);
    assert_eq!(min_max_anytime(&state, 100, &mut slot), None);
    assert_eq!(slot.load(), Some(Movement::Duplicate(0, 1)));
}

#[test]
fn anytime_reaches_the_limit_on_a_tiny_board() {
    let board = Board::new(blobs(&[0, 1, 2]));
    let state = Configuration::with_blobs(&board, blobs(&[0]), blobs(&[2]), false).unwrap();
    let mut slot = AtomicMove::new();
    let mut depth = 1u8;
    let mut rounds = 0;
    while let Some(next) = alpha_beta_anytime(&state, depth, &mut slot) {
        depth = next;
        rounds += 1;
    }
    assert_eq!(rounds, 99);
    assert_eq!(slot.load(), Some(Movement::Duplicate(0, 1)));
}

#[test]
fn names_carry_the_depth() {
    assert_eq!(Greedy().name(), "Greedy");
    assert_eq!(MinMax(3).name(), "Min - Max (max level: 3)");
    assert_eq!(AlphaBeta(12).name(), "Alpha - Beta (max level: 12)");
    assert_eq!(AlphaBeta(255).name(), "Alpha - Beta (max level: 255)");
    assert_eq!(MinMax(0).name(), "Min - Max (max level: 0)");
}
