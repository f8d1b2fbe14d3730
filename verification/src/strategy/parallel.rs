//! Searching the actions of one state side by side on a pool of worker threads.

use crate::configuration::{Configuration, Movement, State};
use crate::strategy::alphabeta::alpha_beta_func;
use crate::strategy::window::{tells, window_search};
use crate::strategy::minmax::neg_max;
use crate::tree::{lemma_child, negamax, no_score};
use rayon::iter::{IntoParallelIterator, ParallelIterator};
use vstd::prelude::*;

verus! {

/// Whether `score` is what a search of `s` to `depth` may answer: the score of `s` where the
/// search has no window, and what the window lets it tell where it has one.
pub open spec fn answers(score: int, s: State, depth: nat, window: Option<(i8, i8)>) -> bool {
    &&& -64 <= score <= 64
    &&& match window {
        None => score == negamax(s, depth),
        Some(w) => score == window_search(s, depth, w.0 as int, w.1 as int, false).0 && tells(
            score,
            negamax(s, depth),
            w.0 as int,
            w.1 as int,
        ),
    }
}

/// The score found for action number `i` of `s` when the state it leads to is searched by
/// itself, with the window from `alpha` to `beta` turned round.
pub open spec fn side_reply(s: State, depth: nat, alpha: int, beta: int, i: int) -> int {
    -window_search(s.after(s.moves()[i]), (depth - 1) as nat, -beta, -alpha, false).0
}

/// The greatest of the scores found for the first `n` actions of `s`, each searched by
/// itself.
pub open spec fn side_best(s: State, depth: nat, alpha: int, beta: int, n: nat) -> int
    decreases n,
{
    if n == 0 {
        no_score()
    } else {
        let before = side_best(s, depth, alpha, beta, (n - 1) as nat);
        let this = side_reply(s, depth, alpha, beta, n - 1);
        if this > before {
            this
        } else {
            before
        }
    }
}

/// A score that one of the actions has and none exceeds is the greatest of them.
pub proof fn lemma_side_best(s: State, depth: nat, alpha: int, beta: int, n: nat, top: int)
    requires
        forall|j: int| 0 <= j < n ==> #[trigger] side_reply(s, depth, alpha, beta, j) <= top,
        exists|i: int| 0 <= i < n && #[trigger] side_reply(s, depth, alpha, beta, i) == top,
        top > no_score(),
    ensures
        side_best(s, depth, alpha, beta, n) == top,
    decreases n,
{
    if n > 0 {
        let last = side_reply(s, depth, alpha, beta, n - 1);
        assert(last <= top);
        if exists|i: int| 0 <= i < n - 1 && #[trigger] side_reply(s, depth, alpha, beta, i) == top {
            lemma_side_best(s, depth, alpha, beta, (n - 1) as nat, top);
        } else {
            lemma_side_below(s, depth, alpha, beta, (n - 1) as nat, top);
        }
    }
}

/// Where none of the first `n` scores reaches `top`, nor does the greatest of them.
pub proof fn lemma_side_below(s: State, depth: nat, alpha: int, beta: int, n: nat, top: int)
    requires
        forall|j: int| 0 <= j < n ==> #[trigger] side_reply(s, depth, alpha, beta, j) < top,
        top > no_score(),
    ensures
        side_best(s, depth, alpha, beta, n) < top,
    decreases n,
{
    if n > 0 {
        lemma_side_below(s, depth, alpha, beta, (n - 1) as nat, top);
        assert(side_reply(s, depth, alpha, beta, n - 1) < top);
    }
}

/// Searches one state by itself, on the thread that calls: the whole tree where there is no
/// window, and else within the window.
pub fn branch_score(depth: u8, state: &Configuration, window: Option<(i8, i8)>) -> (score: i8)
    requires
        state.wf(),
        window matches Some(w) ==> i8::MIN < w.0 < w.1,
    ensures
        answers(score as int, state@, depth as nat, window),
{
    match window {
        None => neg_max(depth, state).0,
        Some((alpha, beta)) => alpha_beta_func(depth, state, alpha, beta).0,
    }
}

/// Hands the states to rayon's `into_par_iter`, searches each with [`branch_score`] through
/// `map`, and gathers the scores with `collect`.
///
/// Believed of rayon: the vector that comes back has one score for each state, in the order
/// of the states, and each score is what the call of [`branch_score`] on that state returned.
#[verifier::external_body]
pub(crate) fn par_scores(depth: u8, children: Vec<Configuration>, window: Option<(i8, i8)>) -> (scores:
    Vec<i8>)
    requires
        forall|i: int| 0 <= i < children.len() ==> (#[trigger] children[i]).wf(),
        window matches Some(w) ==> i8::MIN < w.0 < w.1,
    ensures
        scores.len() == children.len(),
        forall|i: int|
            0 <= i < children.len() ==> answers(
                #[trigger] scores[i] as int,
                children[i]@,
                depth as nat,
                window,
            ),
{
    children.into_par_iter().map(|child| branch_score(depth, &child, window)).collect()
}

/// Hands the scored actions to rayon's `into_par_iter` and asks `max_by_key` for one with
/// the greatest score.
///
/// Believed of rayon: nothing comes back exactly when there is no action; what comes back is
/// one of the scored actions, and none has a greater score. Which of several with the
/// greatest score comes back is left open.
#[verifier::external_body]
pub(crate) fn par_max_by_key(scored: Vec<(Movement, i8)>) -> (best: Option<(Movement, i8)>)
    ensures
        best is None <==> scored.len() == 0,
        best matches Some(top) ==> (exists|i: int| 0 <= i < scored.len() && scored[i] == top) && (
        forall|j: int| 0 <= j < scored.len() ==> (#[trigger] scored[j]).1 <= top.1),
{
    scored.into_par_iter().max_by_key(|&(_, value)| value)
}

/// The states that the actions of `state` lead to, in the order of the actions.
pub fn children(state: &Configuration, moves: &Vec<Movement>) -> (next: Vec<Configuration>)
    requires
        state.wf(),
        moves@ == state@.moves(),
    ensures
        next.len() == moves.len(),
        forall|i: int|
            0 <= i < next.len() ==> (#[trigger] next[i]).wf() && next[i]@ == state@.after(
                moves[i],
            ),
{
    let mut next: Vec<Configuration> = Vec::new();
    let mut i: usize = 0;
    while i < moves.len()
        invariant
            state.wf(),
            moves@ == state@.moves(),
            i <= moves.len(),
            next.len() == i,
            forall|k: int|
                0 <= k < i ==> (#[trigger] next[k]).wf() && next[k]@ == state@.after(moves[k]),
        decreases moves.len() - i,
    {
        proof {
            lemma_child(state@, i as int);
        }
        next.push(state.play(&moves[i]));
        i = i + 1;
    }
    next
}

/// Pairs each action with the opposite of the score found for the state it leads to.
pub fn scored(moves: &Vec<Movement>, scores: &Vec<i8>) -> (pairs: Vec<(Movement, i8)>)
    requires
        scores.len() == moves.len(),
        forall|i: int| 0 <= i < scores.len() ==> -64 <= #[trigger] scores[i] <= 64,
    ensures
        pairs.len() == moves.len(),
        forall|i: int|
            0 <= i < pairs.len() ==> (#[trigger] pairs[i]).0 == moves[i] && pairs[i].1 == -scores[i],
{
    let mut pairs: Vec<(Movement, i8)> = Vec::new();
    let mut i: usize = 0;
    while i < moves.len()
        invariant
            scores.len() == moves.len(),
            forall|k: int| 0 <= k < scores.len() ==> -64 <= #[trigger] scores[k] <= 64,
            i <= moves.len(),
            pairs.len() == i,
            forall|k: int|
                0 <= k < i ==> (#[trigger] pairs[k]).0 == moves[k] && pairs[k].1 == -scores[k],
        decreases moves.len() - i,
    {
        pairs.push((moves[i], -scores[i]));
        i = i + 1;
    }
    pairs
}

} // verus!
