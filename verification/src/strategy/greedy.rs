//! One-ply lookahead.

use crate::configuration::{Configuration, Movement, State};
use crate::strategy::Strategy;
use crate::tree::lemma_child;
use vstd::prelude::*;

verus! {

/// Picks the action that leads to the best immediate value, if any action improves on the
/// value of the state as it stands.
#[derive(Clone, Copy, Debug, PartialEq, Eq, Structural)]
pub struct Greedy();

/// The value, for the side that takes it, of the position that `m` leads to.
pub open spec fn one_ply(s: State, m: Movement) -> int {
    -s.after(m).value()
}

/// The greatest of the value of `s` and the one-ply values of its first `n` actions.
pub open spec fn greedy_score(s: State, n: nat) -> int
    decreases n,
{
    if n == 0 {
        s.value()
    } else {
        let before = greedy_score(s, (n - 1) as nat);
        let this = one_ply(s, s.moves()[n - 1]);
        if this > before {
            this
        } else {
            before
        }
    }
}

/// Among the first `n` actions of `s`, the earliest with the greatest one-ply value, if that
/// value is greater than the value of `s`.
pub open spec fn greedy_choice(s: State, n: nat) -> Option<Movement>
    decreases n,
{
    if n == 0 {
        None
    } else if one_ply(s, s.moves()[n - 1]) > greedy_score(s, (n - 1) as nat) {
        Some(s.moves()[n - 1])
    } else {
        greedy_choice(s, (n - 1) as nat)
    }
}

/// The greedy score is the value of `s` or better, and no listed action beats it.
pub proof fn lemma_greedy_score(s: State, n: nat, i: int)
    requires
        0 <= i < n <= s.moves().len(),
    ensures
        greedy_score(s, n) >= s.value(),
        greedy_score(s, n) >= one_ply(s, s.moves()[i]),
    decreases n,
{
    lemma_greedy_floor(s, (n - 1) as nat);
    if i < n - 1 {
        lemma_greedy_score(s, (n - 1) as nat, i);
    }
}

/// The greedy score is the value of `s` or better.
pub proof fn lemma_greedy_floor(s: State, n: nat)
    ensures
        greedy_score(s, n) >= s.value(),
    decreases n,
{
    if n > 0 {
        lemma_greedy_floor(s, (n - 1) as nat);
    }
}

/// The action picked among the first `n` is one of them and reaches the greedy score, which
/// is then greater than the value of `s`; nothing is picked exactly when no action among them
/// improves on the value of `s`.
pub proof fn lemma_greedy_choice(s: State, n: nat)
    requires
        n <= s.moves().len(),
    ensures
        match greedy_choice(s, n) {
            Some(m) => one_ply(s, m) == greedy_score(s, n) && greedy_score(s, n) > s.value()
                && s.moves().contains(m),
            None => greedy_score(s, n) == s.value(),
        },
    decreases n,
{
    if n > 0 {
        lemma_greedy_choice(s, (n - 1) as nat);
        lemma_greedy_floor(s, (n - 1) as nat);
        assert(s.moves()[n - 1] == s.moves()[n - 1]);
    }
}

/// The greedy chooser never passes over a better action: whatever it picks is worth at
/// least as much, one ply ahead, as every legal action; and where it picks nothing, no legal
/// action improves on the value of the state.
pub proof fn lemma_greedy_is_best(s: State, other: Movement)
    requires
        s.wf(),
        s.legal(other),
    ensures
        match greedy_choice(s, s.moves().len()) {
            Some(m) => s.legal(m) && one_ply(s, m) >= one_ply(s, other) && one_ply(s, m)
                > s.value(),
            None => one_ply(s, other) <= s.value(),
        },
{
    let n = s.moves().len();
    lemma_greedy_choice(s, n);
    s.lemma_moves_legal(other);
    let i = s.moves().lemma_contains_to_index(other);
    lemma_greedy_score(s, n, i);
    if let Some(m) = greedy_choice(s, n) {
        s.lemma_moves_legal(m);
    }
}

impl Greedy {
    /// The name of the chooser.
    pub fn name(&self) -> (text: &'static str)
        ensures
            text@ == "Greedy"@,
    {
        "Greedy"
    }
}

impl Strategy for Greedy {
    /// Looks one ply ahead: starting from the value of `state`, keeps the first action whose
    /// resulting position is worth strictly more, for the side that moves, than everything
    /// seen before it.
    fn compute_next_move(&mut self, state: &Configuration) -> (choice: Option<Movement>)
        ensures
            choice == greedy_choice(state@, state@.moves().len()),
            *final(self) == *old(self),
    {
        let mut best_score: i8 = state.value();
        let mut best_move: Option<Movement> = None;
        let moves = state.movements();
        let mut i: usize = 0;
        while i < moves.len()
            invariant
                state.wf(),
                moves@ == state@.moves(),
                i <= moves.len(),
                best_score == greedy_score(state@, i as nat),
                best_move == greedy_choice(state@, i as nat),
                -64 <= best_score <= 64,
            decreases moves.len() - i,
        {
            let movement = moves[i];
            proof {
                lemma_child(state@, i as int);
            }
            let next_conf: Configuration = state.play(&movement);
            let score: i8 = -next_conf.value();
            if score > best_score {
                best_score = score;
                best_move = Some(movement);
            }
            i = i + 1;
        }
        proof {
            lemma_greedy_choice(state@, moves.len() as nat);
            if let Some(m) = best_move {
                state@.lemma_moves_legal(m);
            }
            if !state@.can_move() {
                assert(greedy_choice(state@, 0) is None);
            }
        }
        best_move
    }
}

} // verus!
