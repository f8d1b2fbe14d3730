//! The value of a position under best play to a given depth, and the actions that reach it.
//!
//! Every score is read from the side to move of the state it belongs to, so the score of an
//! action for the side that takes it is the opposite of the score of the state it leads to.
//! A search stops descending where the side to move has no legal action.

use crate::configuration::{Movement, State};
use vstd::prelude::*;

verus! {

/// Lower than the score of any action; the best score before any action has been looked at.
pub open spec fn no_score() -> int {
    -128
}

/// The score of `s` for its side to move when both sides look `depth` plies ahead.
pub open spec fn negamax(s: State, depth: nat) -> int
    decreases depth, 1nat, 0nat,
{
    if depth == 0 || !s.can_move() {
        s.value()
    } else {
        best_reply(s, depth, s.moves().len())
    }
}

/// The score, for the side to move of `s`, of its action number `i` searched to `depth`.
pub open spec fn reply(s: State, depth: nat, i: int) -> int
    decreases depth, 0nat, 0nat,
{
    if depth == 0 || !(0 <= i < s.moves().len()) {
        no_score()
    } else {
        -negamax(s.after(s.moves()[i]), (depth - 1) as nat)
    }
}

/// The greatest score among the first `n` actions of `s`.
pub open spec fn best_reply(s: State, depth: nat, n: nat) -> int
    decreases depth, 0nat, n + 1,
{
    if n == 0 {
        no_score()
    } else {
        let before = best_reply(s, depth, (n - 1) as nat);
        let this = reply(s, depth, n - 1);
        if this > before {
            this
        } else {
            before
        }
    }
}

/// Among the first `n` actions of `s`, the earliest one with the greatest score.
pub open spec fn first_best(s: State, depth: nat, n: nat) -> Option<Movement>
    decreases n,
{
    if n == 0 {
        None
    } else if reply(s, depth, n - 1) > best_reply(s, depth, (n - 1) as nat) {
        Some(s.moves()[n - 1])
    } else {
        first_best(s, depth, (n - 1) as nat)
    }
}

/// Among the first `n` actions of `s`, the latest one with the greatest score.
pub open spec fn last_best(s: State, depth: nat, n: nat) -> Option<Movement>
    decreases n,
{
    if n == 0 {
        None
    } else if reply(s, depth, n - 1) >= best_reply(s, depth, (n - 1) as nat) {
        Some(s.moves()[n - 1])
    } else {
        last_best(s, depth, (n - 1) as nat)
    }
}

/// Whether the search descends below `s`: some depth is left and the side to move can act.
pub open spec fn expands(s: State, depth: nat) -> bool {
    depth > 0 && s.can_move()
}

/// The action a search to `depth` picks when ties go to the earliest action.
pub open spec fn earliest_choice(s: State, depth: nat) -> Option<Movement> {
    if expands(s, depth) {
        first_best(s, depth, s.moves().len())
    } else {
        None
    }
}

/// The action a search to `depth` picks when ties go to the latest action.
pub open spec fn latest_choice(s: State, depth: nat) -> Option<Movement> {
    if expands(s, depth) {
        last_best(s, depth, s.moves().len())
    } else {
        None
    }
}

/// Whether `m` is an action of `s` whose score is the score of `s` itself.
pub open spec fn is_best(s: State, depth: nat, m: Movement) -> bool {
    exists|i: int|
        0 <= i < s.moves().len() && s.moves()[i] == m && #[trigger] reply(s, depth, i) == negamax(
            s,
            depth,
        )
}

/// The quotient of `a` by a positive `b`, rounded towards zero.
pub open spec fn quotient(a: int, b: int) -> int {
    if a >= 0 {
        a / b
    } else {
        -((-a) / b)
    }
}

/// The sum of the scores of the first `n` actions of `s`.
pub open spec fn total_reply(s: State, depth: nat, n: nat) -> int
    decreases n,
{
    if n == 0 {
        0
    } else {
        total_reply(s, depth, (n - 1) as nat) + reply(s, depth, n - 1)
    }
}

/// The mean score of the actions of `s`, rounded towards zero; the value of `s` where the
/// search does not descend.
pub open spec fn mean(s: State, depth: nat) -> int {
    if expands(s, depth) {
        quotient(total_reply(s, depth, s.moves().len()), s.moves().len() as int)
    } else {
        s.value()
    }
}

/// The mean score, for the side to move of `s`, of what may follow its action number `i`.
pub open spec fn reply_mean(s: State, depth: nat, i: int) -> int {
    if depth == 0 || !(0 <= i < s.moves().len()) {
        no_score()
    } else {
        -mean(s.after(s.moves()[i]), (depth - 1) as nat)
    }
}

/// Among the first `n` actions of `s`, the one kept when a later action replaces an earlier
/// one only with a greater score or, where `by_mean` is set, with the same score and a
/// greater mean; together with the mean of the action kept.
pub open spec fn favoured(s: State, depth: nat, by_mean: bool, n: nat) -> (int, Option<Movement>)
    decreases n,
{
    if n == 0 {
        (no_score(), None)
    } else {
        let kept = favoured(s, depth, by_mean, (n - 1) as nat);
        let best = best_reply(s, depth, (n - 1) as nat);
        let this = reply(s, depth, n - 1);
        let this_mean = reply_mean(s, depth, n - 1);
        if this > best || (by_mean && this == best && this_mean > kept.0) {
            (this_mean, Some(s.moves()[n - 1]))
        } else {
            kept
        }
    }
}

/// The action a search to `depth` picks when ties may go to the greater mean.
pub open spec fn favoured_choice(s: State, depth: nat, by_mean: bool) -> Option<Movement> {
    if expands(s, depth) {
        favoured(s, depth, by_mean, s.moves().len()).1
    } else {
        None
    }
}

/// A search to depth zero looks no further than the state itself: its score is the value of
/// the state, and it picks no action, whatever the rule for ties.
pub proof fn lemma_depth_zero(s: State, by_mean: bool)
    ensures
        negamax(s, 0) == s.value(),
        mean(s, 0) == s.value(),
        earliest_choice(s, 0) is None,
        latest_choice(s, 0) is None,
        favoured_choice(s, 0, by_mean) is None,
{
}

/// Every listed action is legal, and the state it leads to is well formed.
pub proof fn lemma_child(s: State, i: int)
    requires
        s.wf(),
        0 <= i < s.moves().len(),
    ensures
        s.legal(s.moves()[i]),
        s.after(s.moves()[i]).wf(),
{
    let m = s.moves()[i];
    assert(s.moves().contains(m));
    s.lemma_moves_legal(m);
    s.lemma_after_wf(m);
}

/// Scores stay between minus and plus sixty-four.
pub proof fn lemma_negamax_bounds(s: State, depth: nat)
    requires
        s.wf(),
    ensures
        -64 <= negamax(s, depth) <= 64,
    decreases depth, 1nat, 0nat,
{
    s.lemma_value_bounds();
    if expands(s, depth) {
        lemma_best_reply_bounds(s, depth, s.moves().len());
    }
}

/// The score of a listed action stays between minus and plus sixty-four.
pub proof fn lemma_reply_bounds(s: State, depth: nat, i: int)
    requires
        s.wf(),
        depth > 0,
        0 <= i < s.moves().len(),
    ensures
        -64 <= reply(s, depth, i) <= 64,
    decreases depth, 0nat, 0nat,
{
    lemma_child(s, i);
    lemma_negamax_bounds(s.after(s.moves()[i]), (depth - 1) as nat);
}

/// The best score among one action or more stays between minus and plus sixty-four.
pub proof fn lemma_best_reply_bounds(s: State, depth: nat, n: nat)
    requires
        s.wf(),
        depth > 0,
        0 < n <= s.moves().len(),
    ensures
        -64 <= best_reply(s, depth, n) <= 64,
    decreases depth, 0nat, n + 1,
{
    lemma_reply_bounds(s, depth, n - 1);
    if n > 1 {
        lemma_best_reply_bounds(s, depth, (n - 1) as nat);
    } else {
        assert(best_reply(s, depth, 0) == no_score());
    }
}

/// The sum of the scores of `n` actions stays within sixty-four times `n` of zero.
pub proof fn lemma_total_reply_bounds(s: State, depth: nat, n: nat)
    requires
        s.wf(),
        depth > 0,
        n <= s.moves().len(),
    ensures
        -64 * n <= total_reply(s, depth, n) <= 64 * n,
    decreases n,
{
    if n > 0 {
        lemma_total_reply_bounds(s, depth, (n - 1) as nat);
        lemma_reply_bounds(s, depth, n - 1);
    }
}

/// The quotient of a sum of `n` numbers within sixty-four of zero stays within sixty-four.
pub proof fn lemma_quotient_bounds(a: int, n: int)
    requires
        n > 0,
        -64 * n <= a <= 64 * n,
    ensures
        -64 <= quotient(a, n) <= 64,
{
    if a >= 0 {
        assert(0 <= a / n <= 64) by (nonlinear_arith)
            requires
                n > 0,
                0 <= a <= 64 * n,
        ;
    } else {
        let b = -a;
        assert(0 <= b / n <= 64) by (nonlinear_arith)
            requires
                n > 0,
                0 <= b <= 64 * n,
        ;
    }
}

/// Means stay between minus and plus sixty-four.
pub proof fn lemma_mean_bounds(s: State, depth: nat)
    requires
        s.wf(),
    ensures
        -64 <= mean(s, depth) <= 64,
{
    s.lemma_value_bounds();
    if expands(s, depth) {
        let n = s.moves().len();
        lemma_total_reply_bounds(s, depth, n);
        lemma_quotient_bounds(total_reply(s, depth, n), n as int);
    }
}

/// The action kept among one action or more is one of them, and its score is the best.
pub proof fn lemma_favoured(s: State, depth: nat, by_mean: bool, n: nat)
    requires
        s.wf(),
        depth > 0,
        0 < n <= s.moves().len(),
    ensures
        favoured(s, depth, by_mean, n).1 matches Some(m) && exists|i: int|
            0 <= i < n && s.moves()[i] == m && #[trigger] reply(s, depth, i) == best_reply(
                s,
                depth,
                n,
            ) && reply_mean(s, depth, i) == favoured(s, depth, by_mean, n).0,
    decreases n,
{
    let this = reply(s, depth, n - 1);
    lemma_reply_bounds(s, depth, n - 1);
    if n > 1 {
        lemma_favoured(s, depth, by_mean, (n - 1) as nat);
        lemma_best_reply_bounds(s, depth, (n - 1) as nat);
        let best = best_reply(s, depth, (n - 1) as nat);
        let kept = favoured(s, depth, by_mean, (n - 1) as nat);
        if this > best || (by_mean && this == best && reply_mean(s, depth, n - 1) > kept.0) {
            assert(reply(s, depth, n - 1) == best_reply(s, depth, n));
        } else {
            let i = choose|i: int|
                0 <= i < n - 1 && s.moves()[i] == kept.1->0 && #[trigger] reply(s, depth, i)
                    == best && reply_mean(s, depth, i) == kept.0;
            assert(reply(s, depth, i) == best_reply(s, depth, n));
        }
    } else {
        assert(best_reply(s, depth, 0) == no_score());
        assert(favoured(s, depth, by_mean, 0).1 is None);
        assert(reply(s, depth, 0) == best_reply(s, depth, 1));
    }
}

/// No action among the first `n` scores more than the best of them.
pub proof fn lemma_best_reply_greatest(s: State, depth: nat, n: nat, i: int)
    requires
        0 <= i < n,
    ensures
        reply(s, depth, i) <= best_reply(s, depth, n),
    decreases n,
{
    if i < n - 1 {
        lemma_best_reply_greatest(s, depth, (n - 1) as nat, i);
    }
}

/// The best score among one action or more is the score of one of them.
pub proof fn lemma_best_reply_reached(s: State, depth: nat, n: nat) -> (i: int)
    requires
        s.wf(),
        depth > 0,
        0 < n <= s.moves().len(),
    ensures
        0 <= i < n,
        reply(s, depth, i) == best_reply(s, depth, n),
    decreases n,
{
    lemma_reply_bounds(s, depth, n - 1);
    if n == 1 {
        assert(best_reply(s, depth, 0) == no_score());
        0
    } else if reply(s, depth, n - 1) > best_reply(s, depth, (n - 1) as nat) {
        n - 1
    } else {
        lemma_best_reply_reached(s, depth, (n - 1) as nat)
    }
}

/// A score that one of the actions has and none exceeds is the score of the state.
pub proof fn lemma_greatest_is_negamax(s: State, depth: nat, i: int)
    requires
        s.wf(),
        expands(s, depth),
        0 <= i < s.moves().len(),
        forall|j: int| 0 <= j < s.moves().len() ==> reply(s, depth, j) <= reply(s, depth, i),
    ensures
        reply(s, depth, i) == negamax(s, depth),
        is_best(s, depth, s.moves()[i]),
{
    let n = s.moves().len();
    let top = lemma_best_reply_reached(s, depth, n);
    lemma_best_reply_greatest(s, depth, n, i);
    assert(reply(s, depth, top) <= reply(s, depth, i));
}

/// The earliest best action among one action or more is one of them, and its score is the
/// best.
pub proof fn lemma_first_best(s: State, depth: nat, n: nat) -> (i: int)
    requires
        s.wf(),
        depth > 0,
        0 < n <= s.moves().len(),
    ensures
        0 <= i < n,
        first_best(s, depth, n) == Some(s.moves()[i]),
        reply(s, depth, i) == best_reply(s, depth, n),
    decreases n,
{
    lemma_reply_bounds(s, depth, n - 1);
    if n == 1 {
        assert(best_reply(s, depth, 0) == no_score());
        0
    } else if reply(s, depth, n - 1) > best_reply(s, depth, (n - 1) as nat) {
        n - 1
    } else {
        lemma_first_best(s, depth, (n - 1) as nat)
    }
}

/// The latest best action among one action or more is one of them, and its score is the
/// best.
pub proof fn lemma_last_best(s: State, depth: nat, n: nat) -> (i: int)
    requires
        s.wf(),
        depth > 0,
        0 < n <= s.moves().len(),
    ensures
        0 <= i < n,
        last_best(s, depth, n) == Some(s.moves()[i]),
        reply(s, depth, i) == best_reply(s, depth, n),
    decreases n,
{
    lemma_reply_bounds(s, depth, n - 1);
    if n == 1 {
        assert(best_reply(s, depth, 0) == no_score());
        0
    } else if reply(s, depth, n - 1) >= best_reply(s, depth, (n - 1) as nat) {
        n - 1
    } else {
        lemma_last_best(s, depth, (n - 1) as nat)
    }
}

/// Whatever the rule for ties, a search picks a legal action whose score is the score of the
/// state, where it descends at all; the rules differ only among actions of equal score.
pub proof fn lemma_choices_are_best(s: State, depth: nat, by_mean: bool)
    requires
        s.wf(),
        expands(s, depth),
    ensures
        earliest_choice(s, depth) matches Some(m) && is_best(s, depth, m) && s.legal(m),
        latest_choice(s, depth) matches Some(m) && is_best(s, depth, m) && s.legal(m),
        favoured_choice(s, depth, by_mean) matches Some(m) && is_best(s, depth, m) && s.legal(m),
{
    let n = s.moves().len();
    let i = lemma_first_best(s, depth, n);
    lemma_child(s, i);
    let j = lemma_last_best(s, depth, n);
    lemma_child(s, j);
    lemma_favoured(s, depth, by_mean, n);
    let m = favoured(s, depth, by_mean, n).1->0;
    let k = choose|k: int|
        0 <= k < n && s.moves()[k] == m && #[trigger] reply(s, depth, k) == best_reply(s, depth, n)
            && reply_mean(s, depth, k) == favoured(s, depth, by_mean, n).0;
    lemma_child(s, k);
}

} // verus!
