//! Depth-bounded search of the whole game tree.

use crate::configuration::{Configuration, Movement};
use crate::shmem::AtomicMove;
use crate::strategy::alphabeta::DEPTH_LIMIT;
use crate::strategy::parallel::{children, par_max_by_key, par_scores, scored};
use crate::strategy::{digits, labelled, Strategy};
use crate::tree::{
    best_reply, earliest_choice, expands, favoured, favoured_choice, first_best, is_best,
    last_best, latest_choice, lemma_child, lemma_choices_are_best, lemma_greatest_is_negamax,
    lemma_mean_bounds,
    lemma_negamax_bounds, lemma_reply_bounds, lemma_total_reply_bounds, mean, negamax, reply,
    total_reply,
};
use vstd::prelude::*;

verus! {

/// Searches the whole tree to the depth it holds.
#[derive(Clone, Copy, Debug, PartialEq, Eq, Structural)]
pub struct MinMax(pub u8);

/// Searches `state` to `depth` plies and returns its score for the side to move, with the
/// earliest action that reaches it. There is no action at depth zero or where the side to
/// move is stuck; the score is then the value of `state`.
pub fn min_max(depth: u8, state: &Configuration) -> (found: (i8, Option<Movement>))
    requires
        state.wf(),
    ensures
        found.0 == negamax(state@, depth as nat),
        found.1 == earliest_choice(state@, depth as nat),
        -64 <= found.0 <= 64,
    decreases depth,
{
    proof {
        lemma_negamax_bounds(state@, depth as nat);
    }
    if depth == 0 {
        return (state.value(), None);
    }
    let moves = state.movements();
    if moves.len() == 0 {
        return (state.value(), None);
    }
    let mut best_score: i8 = i8::MIN;
    let mut best_move: Option<Movement> = None;
    let mut i: usize = 0;
    while i < moves.len()
        invariant
            state.wf(),
            depth > 0,
            moves@ == state@.moves(),
            i <= moves.len(),
            best_score == best_reply(state@, depth as nat, i as nat),
            best_move == first_best(state@, depth as nat, i as nat),
        decreases moves.len() - i,
    {
        let movement = moves[i];
        proof {
            lemma_child(state@, i as int);
            lemma_reply_bounds(state@, depth as nat, i as int);
        }
        let next_conf: Configuration = state.play(&movement);
        let (below, _) = min_max(depth - 1, &next_conf);
        let score: i8 = -below;
        if score > best_score {
            best_score = score;
            best_move = Some(movement);
        }
        i = i + 1;
    }
    (best_score, best_move)
}

/// Searches `state` to `depth` plies and returns its score, the mean score of its actions
/// rounded towards zero, and the action kept. A later action replaces an earlier one with a
/// greater score; where `with_avg` is set, also with the same score and a greater mean of
/// what may follow. Every other level below breaks ties by the mean.
pub fn min_max_with_avg(depth: u8, state: &Configuration, with_avg: bool) -> (found: (
    i8,
    i8,
    Option<Movement>,
))
    requires
        state.wf(),
    ensures
        found.0 == negamax(state@, depth as nat),
        found.1 == mean(state@, depth as nat),
        found.2 == favoured_choice(state@, depth as nat, with_avg),
        -64 <= found.0 <= 64,
        -64 <= found.1 <= 64,
    decreases depth,
{
    proof {
        lemma_negamax_bounds(state@, depth as nat);
        lemma_mean_bounds(state@, depth as nat);
    }
    if depth == 0 {
        let v: i8 = state.value();
        return (v, v, None);
    }
    let moves = state.movements();
    if moves.len() == 0 {
        let v: i8 = state.value();
        return (v, v, None);
    }
    proof {
        state@.lemma_moves_count(64);
    }
    let mut best_score: i8 = i8::MIN;
    let mut best_avg: i8 = i8::MIN;
    let mut best_move: Option<Movement> = None;
    let mut count: i32 = 0;
    let mut sum: i32 = 0;
    let mut i: usize = 0;
    while i < moves.len()
        invariant
            state.wf(),
            depth > 0,
            moves@ == state@.moves(),
            moves.len() <= 4096,
            i <= moves.len(),
            count == i,
            sum == total_reply(state@, depth as nat, i as nat),
            best_score == best_reply(state@, depth as nat, i as nat),
            (best_avg as int, best_move) == favoured(state@, depth as nat, with_avg, i as nat),
        decreases moves.len() - i,
    {
        let movement = moves[i];
        proof {
            lemma_child(state@, i as int);
            lemma_reply_bounds(state@, depth as nat, i as int);
            lemma_mean_bounds(state@.after(movement), (depth - 1) as nat);
            lemma_total_reply_bounds(state@, depth as nat, i as nat);
        }
        let next_conf: Configuration = state.play(&movement);
        let (below, below_avg, _) = min_max_with_avg(depth - 1, &next_conf, !with_avg);
        let score: i8 = -below;
        let avg: i8 = -below_avg;
        if score > best_score || (with_avg && score == best_score && avg > best_avg) {
            best_score = score;
            best_avg = avg;
            best_move = Some(movement);
        }
        count = count + 1;
        sum = sum + (score as i32);
        i = i + 1;
    }
    proof {
        lemma_total_reply_bounds(state@, depth as nat, moves.len() as nat);
    }
    let average: i32 = if sum >= 0 {
        sum / count
    } else {
        -((-sum) / count)
    };
    (best_score, average as i8, best_move)
}

/// The best score among the first `n` actions of `state`, with the latest action that has
/// it, found by folding over the actions from the first on.
fn fold_latest(depth: u8, state: &Configuration, moves: &Vec<Movement>, n: usize) -> (kept: (
    i8,
    Option<Movement>,
))
    requires
        state.wf(),
        depth > 0,
        moves@ == state@.moves(),
        n <= moves.len(),
    ensures
        kept.0 == best_reply(state@, depth as nat, n as nat),
        kept.1 == last_best(state@, depth as nat, n as nat),
    decreases depth, 0int, n,
{
    if n == 0 {
        return (i8::MIN, None);
    }
    let (best_score, best_move) = fold_latest(depth, state, moves, n - 1);
    let movement = moves[n - 1];
    proof {
        lemma_child(state@, n - 1);
        lemma_reply_bounds(state@, depth as nat, n - 1);
    }
    let (below, _) = neg_max(depth - 1, &state.play(&movement));
    let score: i8 = -below;
    if score >= best_score {
        (score, Some(movement))
    } else {
        (best_score, best_move)
    }
}

/// Searches `state` to `depth` plies as [`min_max`] does, but keeps the latest action with the
/// best score where [`min_max`] keeps the earliest.
pub fn neg_max(depth: u8, state: &Configuration) -> (found: (i8, Option<Movement>))
    requires
        state.wf(),
    ensures
        found.0 == negamax(state@, depth as nat),
        found.1 == latest_choice(state@, depth as nat),
        -64 <= found.0 <= 64,
    decreases depth, 1int, 0int,
{
    proof {
        lemma_negamax_bounds(state@, depth as nat);
    }
    if depth == 0 {
        return (state.value(), None);
    }
    let moves = state.movements();
    if moves.len() == 0 {
        return (state.value(), None);
    }
    fold_latest(depth, state, &moves, moves.len())
}

/// Searches `state` to `depth` plies with the actions of `state` searched side by side, each
/// by [`neg_max`] on a worker of its own. The score is the one that [`min_max`] finds; the
/// action is one of those that reach it.
pub fn pneg_max(depth: u8, state: &Configuration) -> (found: (i8, Option<Movement>))
    requires
        state.wf(),
    ensures
        found.0 == negamax(state@, depth as nat),
        match found.1 {
            Some(m) => expands(state@, depth as nat) && is_best(state@, depth as nat, m)
                && state@.legal(m),
            None => !expands(state@, depth as nat),
        },
        -64 <= found.0 <= 64,
{
    proof {
        lemma_negamax_bounds(state@, depth as nat);
    }
    if depth == 0 {
        return (state.value(), None);
    }
    let moves = state.movements();
    if moves.len() == 0 {
        return (state.value(), None);
    }
    let scores = par_scores(depth - 1, children(state, &moves), None);
    let pairs = scored(&moves, &scores);
    match par_max_by_key(pairs) {
        Some((bmove, score)) => {
            proof {
                let i = choose|i: int| 0 <= i < pairs.len() && pairs[i] == (bmove, score);
                assert forall|j: int| 0 <= j < moves.len() implies reply(state@, depth as nat, j)
                    <= reply(state@, depth as nat, i) by {
                    assert(pairs[j].1 <= score);
                }
                lemma_greatest_is_negamax(state@, depth as nat, i);
                lemma_child(state@, i);
            }
            (score, Some(bmove))
        },
        None => (state.value(), None),
    }
}

/// What a fold over the actions of a state carries along.
struct Tally {
    best_move: Option<Movement>,
    best_score: i8,
    best_avg: i8,
    sum: i32,
    count: i32,
}

/// The tally of the first `n` actions of `state`: the action kept, its score and the mean
/// of what may follow it, and the sum and the number of the scores.
fn fold_tally(depth: u8, state: &Configuration, moves: &Vec<Movement>, n: usize, with_avg: bool)
    -> (tally: Tally)
    requires
        state.wf(),
        depth > 0,
        moves@ == state@.moves(),
        n <= moves.len(),
        moves.len() <= 4096,
    ensures
        tally.best_score == best_reply(state@, depth as nat, n as nat),
        (tally.best_avg as int, tally.best_move) == favoured(
            state@,
            depth as nat,
            with_avg,
            n as nat,
        ),
        tally.sum == total_reply(state@, depth as nat, n as nat),
        tally.count == n,
    decreases depth, 0int, n,
{
    if n == 0 {
        return Tally { best_move: None, best_score: i8::MIN, best_avg: i8::MIN, sum: 0, count: 0 };
    }
    let acc = fold_tally(depth, state, moves, n - 1, with_avg);
    let movement = moves[n - 1];
    proof {
        lemma_child(state@, n - 1);
        lemma_reply_bounds(state@, depth as nat, n - 1);
        lemma_mean_bounds(state@.after(movement), (depth - 1) as nat);
        lemma_total_reply_bounds(state@, depth as nat, (n - 1) as nat);
    }
    let (below, below_avg, _) = pexpectimax(depth - 1, &state.play(&movement), !with_avg);
    let score: i8 = -below;
    let avg: i8 = -below_avg;
    let sum: i32 = acc.sum + (score as i32);
    let count: i32 = acc.count + 1;
    if score > acc.best_score || (with_avg && score == acc.best_score && avg > acc.best_avg) {
        Tally { best_move: Some(movement), best_score: score, best_avg: avg, sum, count }
    } else {
        Tally {
            best_move: acc.best_move,
            best_score: acc.best_score,
            best_avg: acc.best_avg,
            sum,
            count,
        }
    }
}

/// Searches `state` to `depth` plies as [`min_max_with_avg`] does, by folding over the
/// actions.
pub fn pexpectimax(depth: u8, state: &Configuration, with_avg: bool) -> (found: (
    i8,
    i8,
    Option<Movement>,
))
    requires
        state.wf(),
    ensures
        found.0 == negamax(state@, depth as nat),
        found.1 == mean(state@, depth as nat),
        found.2 == favoured_choice(state@, depth as nat, with_avg),
        -64 <= found.0 <= 64,
        -64 <= found.1 <= 64,
    decreases depth, 1int, 0int,
{
    proof {
        lemma_negamax_bounds(state@, depth as nat);
        lemma_mean_bounds(state@, depth as nat);
    }
    if depth == 0 {
        let v: i8 = state.value();
        return (v, v, None);
    }
    let moves = state.movements();
    if moves.len() == 0 {
        let v: i8 = state.value();
        return (v, v, None);
    }
    proof {
        state@.lemma_moves_count(64);
    }
    let tally = fold_tally(depth, state, &moves, moves.len(), with_avg);
    proof {
        lemma_total_reply_bounds(state@, depth as nat, moves.len() as nat);
    }
    let average: i32 = if tally.sum >= 0 {
        tally.sum / tally.count
    } else {
        -((-tally.sum) / tally.count)
    };
    (tally.best_score, average as i8, tally.best_move)
}

/// One round of the search that runs until it is stopped: searches `state` to `depth` as
/// [`MinMax`] does, stores the action picked in `movement`, and gives the depth of the next
/// round. Whoever runs the rounds starts at depth one, hands the slot on to the readers after
/// each round, and may be stopped at any time.
///
/// There is no round at depth zero, nor from [`DEPTH_LIMIT`] on: nothing is stored then, and
/// no round follows.
pub fn min_max_anytime(state: &Configuration, depth: u8, movement: &mut AtomicMove) -> (next:
    Option<u8>)
    requires
        state.wf(),
    ensures
        0 < depth < DEPTH_LIMIT ==> final(movement)@ == favoured_choice(
            state@,
            depth as nat,
            true,
        ) && next == Some((depth + 1) as u8),
        !(0 < depth < DEPTH_LIMIT) ==> *final(movement) == *old(movement) && next is None,
{
    if depth == 0 || depth >= DEPTH_LIMIT {
        return None;
    }
    movement.store(MinMax(depth).compute_next_move(state));
    Some(depth + 1)
}

impl MinMax {
    /// The name of the chooser, with the depth it searches to.
    pub fn name(&self) -> (text: String)
        ensures
            text@ == "Min - Max (max level: "@ + digits(self.0 as nat) + seq![')'],
    {
        labelled("Min - Max (max level: ", self.0)
    }
}

impl Strategy for MinMax {
    /// Searches to the depth held and picks a best action; among actions of equal score the
    /// one with the greater mean of what may follow, and the earliest of those.
    fn compute_next_move(&mut self, state: &Configuration) -> (choice: Option<Movement>)
        ensures
            choice == favoured_choice(state@, old(self).0 as nat, true),
            *final(self) == *old(self),
    {
        proof {
            if expands(state@, self.0 as nat) {
                lemma_choices_are_best(state@, self.0 as nat, true);
            }
        }
        let (_, _, choice) = pexpectimax(self.0, state, true);
        choice
    }
}

} // verus!
