//! Depth-bounded search that skips what cannot change the result.
//!
//! A search is given a window of scores, from `alpha` up to `beta`. A score strictly inside
//! the window is the score of the state; a score at or below `alpha` is only known to be no
//! less than it, and a score at or above `beta` only known to be no more.

use crate::configuration::{Configuration, Key, Movement};
use crate::shmem::AtomicMove;
use crate::strategy::memo::{Entry, Memo};
use crate::strategy::parallel::{
    children, lemma_side_best, par_max_by_key, par_scores, scored, side_best, side_reply,
};
use crate::strategy::ranking::{lemma_ranked_unique, numbers, ranked, ranking};
use crate::strategy::window::{
    lemma_scan_complete, lemma_window_search, listed, outlooks, preferred, scanned, tells, tried,
    window_scan, window_search,
};
use crate::strategy::{digits, labelled, Strategy};
use crate::tree::{
    earliest_choice, expands, is_best, lemma_best_reply_greatest, lemma_best_reply_reached,
    lemma_child, lemma_choices_are_best, lemma_negamax_bounds, lemma_reply_bounds, negamax,
    reply,
};
use vstd::prelude::*;

verus! {

/// The depth below which a search that runs until it is stopped keeps deepening.
pub const DEPTH_LIMIT: u8 = 100;

/// Searches with a window to the depth it holds.
#[derive(Clone, Copy, Debug, PartialEq, Eq, Structural)]
pub struct AlphaBeta(pub u8);

/// Searches `state` to `depth` plies with the window from `alpha` to `beta`. Each action is
/// searched with the window turned round, and the lower end rises with the best score found;
/// once it meets `beta` the remaining actions are skipped.
///
/// A score inside the window is the score of `state`, and the action is then the earliest
/// one that reaches it, as the search of the whole tree would find them.
pub fn alpha_beta(depth: u8, state: &Configuration, alpha: i8, beta: i8) -> (found: (
    i8,
    Option<Movement>,
))
    requires
        state.wf(),
        i8::MIN < alpha < beta,
    ensures
        (found.0 as int, found.1) == window_search(
            state@,
            depth as nat,
            alpha as int,
            beta as int,
            false,
        ),
        tells(found.0 as int, negamax(state@, depth as nat), alpha as int, beta as int),
        alpha < found.0 < beta ==> found.1 == earliest_choice(state@, depth as nat),
        found.1 is Some <==> expands(state@, depth as nat),
        found.1 matches Some(m) ==> state@.legal(m),
        -64 <= found.0 <= 64,
    decreases depth,
{
    proof {
        lemma_window_search(state@, depth as nat, alpha as int, beta as int, false);
    }
    if depth == 0 {
        return (state.value(), None);
    }
    let moves = state.movements();
    if moves.len() == 0 {
        return (state.value(), None);
    }
    let mut raised: i8 = alpha;
    let mut best_score: i8 = i8::MIN;
    let mut best_move: Option<Movement> = None;
    let mut i: usize = 0;
    while i < moves.len()
        invariant
            state.wf(),
            depth > 0,
            moves@ == state@.moves(),
            i <= moves.len(),
            i8::MIN < alpha <= raised < beta,
            window_scan(
                state@,
                depth as nat,
                beta as int,
                false,
                i as nat,
                best_score as int,
                raised as int,
                best_move,
            ) == window_search(state@, depth as nat, alpha as int, beta as int, false),
        decreases moves.len() - i,
    {
        let movement = moves[i];
        proof {
            lemma_child(state@, i as int);
            assert(tried(state@, false)[i as int] == i);
        }
        let next_conf: Configuration = state.play(&movement);
        let (below, _) = alpha_beta(depth - 1, &next_conf, -beta, -raised);
        let score: i8 = -below;
        if score > best_score {
            best_score = score;
            best_move = Some(movement);
            if best_score > raised {
                raised = best_score;
            }
            if raised >= beta {
                proof {
                    lemma_window_search(state@, depth as nat, alpha as int, beta as int, false);
                }
                return (best_score, best_move);
            }
        }
        i = i + 1;
    }
    (best_score, best_move)
}

/// Searches the first `n` actions of `state` one after the other, each with the window as
/// the ones before it have left it, and stops at the first that meets `beta`. What comes
/// back is the best score, the action that reached it and the lower end of the window by
/// then; it comes back as an error where the scan has stopped.
fn fold_window(
    depth: u8,
    state: &Configuration,
    moves: &Vec<Movement>,
    n: usize,
    alpha: i8,
    beta: i8,
) -> (folded: Result<(i8, Option<Movement>, i8), (i8, Option<Movement>)>)
    requires
        state.wf(),
        depth > 0,
        i8::MIN < alpha < beta,
        moves@ == state@.moves(),
        0 < moves.len(),
        n <= moves.len(),
    ensures
        match folded {
            Ok(acc) => i8::MIN < acc.2 < beta && acc.0 <= acc.2 && window_scan(
                state@,
                depth as nat,
                beta as int,
                false,
                n as nat,
                acc.0 as int,
                acc.2 as int,
                acc.1,
            ) == window_search(state@, depth as nat, alpha as int, beta as int, false),
            Err(acc) => beta <= acc.0 && (acc.0 as int, acc.1) == window_search(
                state@,
                depth as nat,
                alpha as int,
                beta as int,
                false,
            ),
        },
    decreases depth, 0int, n,
{
    if n == 0 {
        return Ok((i8::MIN, None, alpha));
    }
    let (mut bscore, mut bmove, mut raised) = match fold_window(
        depth,
        state,
        moves,
        n - 1,
        alpha,
        beta,
    ) {
        Ok(acc) => acc,
        Err(acc) => {
            return Err(acc);
        },
    };
    let movement = moves[n - 1];
    proof {
        lemma_child(state@, n - 1);
        assert(tried(state@, false)[n - 1] == n - 1);
    }
    let (below, _) = alpha_beta_func(depth - 1, &state.play(&movement), -beta, -raised);
    let score: i8 = -below;
    if score > bscore {
        bscore = score;
        bmove = Some(movement);
        if bscore > raised {
            raised = bscore;
        }
        if raised >= beta {
            return Err((bscore, bmove));
        }
    }
    Ok((bscore, bmove, raised))
}

/// Searches `state` as [`alpha_beta`] does, by folding over the actions.
pub fn alpha_beta_func(depth: u8, state: &Configuration, alpha: i8, beta: i8) -> (found: (
    i8,
    Option<Movement>,
))
    requires
        state.wf(),
        i8::MIN < alpha < beta,
    ensures
        (found.0 as int, found.1) == window_search(
            state@,
            depth as nat,
            alpha as int,
            beta as int,
            false,
        ),
        tells(found.0 as int, negamax(state@, depth as nat), alpha as int, beta as int),
        alpha < found.0 < beta ==> found.1 == earliest_choice(state@, depth as nat),
        found.1 is Some <==> expands(state@, depth as nat),
        found.1 matches Some(m) ==> state@.legal(m),
        -64 <= found.0 <= 64,
    decreases depth, 1int, 0int,
{
    proof {
        lemma_window_search(state@, depth as nat, alpha as int, beta as int, false);
    }
    if depth == 0 {
        return (state.value(), None);
    }
    let moves = state.movements();
    if moves.len() == 0 {
        return (state.value(), None);
    }
    match fold_window(depth, state, &moves, moves.len(), alpha, beta) {
        Ok((bscore, bmove, _)) => (bscore, bmove),
        Err((bscore, bmove)) => (bscore, bmove),
    }
}

/// Searches `state` as [`alpha_beta_func`] does, with a table of results at hand. A result
/// filed for `state` at `depth` is given back at once. Else the actions are searched, each
/// with the table at hand, and the outcome is filed if the score lies inside the window: a
/// score that is only a bound for this window is never filed.
///
/// A score inside the window is the score of `state`, and the action is then the earliest
/// one that reaches it, as the search of the whole tree would find them.
pub fn alpha_beta_func_memo(
    depth: u8,
    state: &Configuration,
    alpha: i8,
    beta: i8,
    memo: &mut Memo,
) -> (found: (i8, Option<Movement>))
    requires
        state.wf(),
        i8::MIN < alpha < beta,
        old(memo).wf(),
        old(memo).cells() == state@.cells,
    ensures
        tells(found.0 as int, negamax(state@, depth as nat), alpha as int, beta as int),
        alpha < found.0 < beta ==> found.1 == earliest_choice(state@, depth as nat),
        found.1 is Some <==> expands(state@, depth as nat),
        found.1 matches Some(m) ==> state@.legal(m),
        -64 <= found.0 <= 64,
        final(memo).wf(),
        final(memo).cells() == old(memo).cells(),
        old(memo).filed(state.key(), depth) matches Some(hit) ==> found == (hit.0, Some(hit.1))
            && final(memo).same_entries(old(memo)),
        old(memo).filed(state.key(), depth) is None && alpha < found.0 < beta ==> final(memo).filed(
            state.key(),
            depth,
        ) == match found.1 {
            Some(m) => Some((found.0, m)),
            None => None,
        },
    decreases depth,
{
    proof {
        lemma_negamax_bounds(state@, depth as nat);
        assert(memo.right_for(*state));
    }
    if let Some((bscore, bmove)) = memo.get(state, depth) {
        proof {
            lemma_choices_are_best(state@, depth as nat, false);
        }
        return (bscore, Some(bmove));
    }
    if depth == 0 {
        return (state.value(), None);
    }
    let moves = state.movements();
    if moves.len() == 0 {
        return (state.value(), None);
    }
    let ghost order = listed(moves.len() as nat);
    let mut raised: i8 = alpha;
    let mut bscore: i8 = i8::MIN;
    let mut bmove: Option<Movement> = None;
    let mut i: usize = 0;
    while i < moves.len()
        invariant
            state.wf(),
            depth > 0,
            i8::MIN < alpha < beta,
            moves@ == state@.moves(),
            moves.len() > 0,
            order == listed(moves.len() as nat),
            i <= moves.len(),
            memo.wf(),
            memo.cells() == state@.cells,
            old(memo).cells() == state@.cells,
            old(memo).filed(state.key(), depth) is None,
            scanned(
                state@,
                depth as nat,
                alpha as int,
                beta as int,
                order,
                i as int,
                bscore as int,
                raised as int,
                bmove,
            ),
        decreases moves.len() - i,
    {
        let movement = moves[i];
        proof {
            lemma_child(state@, i as int);
            lemma_reply_bounds(state@, depth as nat, i as int);
            assert(order[i as int] == i);
        }
        let next_conf: Configuration = state.play(&movement);
        let (below, _) = alpha_beta_func_memo(depth - 1, &next_conf, -beta, -raised, memo);
        let score: i8 = -below;
        if score > bscore {
            bscore = score;
            bmove = Some(movement);
            if bscore > raised {
                raised = bscore;
            }
            if raised >= beta {
                proof {
                    lemma_best_reply_greatest(
                        state@,
                        depth as nat,
                        moves.len() as nat,
                        i as int,
                    );
                }
                return (bscore, bmove);
            }
        }
        i = i + 1;
    }
    proof {
        lemma_scan_complete(
            state@,
            depth as nat,
            alpha as int,
            beta as int,
            bscore as int,
            raised as int,
            bmove,
        );
    }
    if alpha < bscore {
        match bmove {
            Some(m) => {
                memo.insert(state, depth, bscore, m);
            },
            None => {},
        }
    }
    (bscore, bmove)
}

/// Searches `state` as [`alpha_beta_func_memo`] does, but consults and fills the table for
/// `state` alone: the actions are searched by [`alpha_beta_func`], without the table.
pub fn negascout(depth: u8, state: &Configuration, alpha: i8, beta: i8, memo: &mut Memo) -> (found:
    (i8, Option<Movement>))
    requires
        state.wf(),
        i8::MIN < alpha < beta,
        old(memo).wf(),
        old(memo).cells() == state@.cells,
    ensures
        tells(found.0 as int, negamax(state@, depth as nat), alpha as int, beta as int),
        alpha < found.0 < beta ==> found.1 == earliest_choice(state@, depth as nat),
        found.1 is Some <==> expands(state@, depth as nat),
        found.1 matches Some(m) ==> state@.legal(m),
        -64 <= found.0 <= 64,
        final(memo).wf(),
        final(memo).cells() == old(memo).cells(),
        match old(memo).filed(state.key(), depth) {
            Some(hit) if expands(state@, depth as nat) => found == (hit.0, Some(hit.1))
                && final(memo).same_entries(old(memo)),
            _ => (found.0 as int, found.1) == window_search(
                state@,
                depth as nat,
                alpha as int,
                beta as int,
                false,
            ) && forall|k: Key| #[trigger]
                final(memo).entry(k) == if k == state.key() && alpha < found.0 < beta
                    && found.1 is Some {
                    Some(Entry { depth, score: found.0, movement: found.1->0 })
                } else {
                    old(memo).entry(k)
                },
        },
{
    proof {
        lemma_negamax_bounds(state@, depth as nat);
        lemma_window_search(state@, depth as nat, alpha as int, beta as int, false);
        assert(memo.right_for(*state));
    }
    if depth == 0 {
        return (state.value(), None);
    }
    let moves = state.movements();
    if moves.len() == 0 {
        return (state.value(), None);
    }
    if let Some((bscore, bmove)) = memo.get(state, depth) {
        proof {
            lemma_choices_are_best(state@, depth as nat, false);
        }
        return (bscore, Some(bmove));
    }
    match fold_window(depth, state, &moves, moves.len(), alpha, beta) {
        Ok((bscore, bmove, raised)) => {
            proof {
                assert(window_scan(
                    state@,
                    depth as nat,
                    beta as int,
                    false,
                    moves.len() as nat,
                    bscore as int,
                    raised as int,
                    bmove,
                ) == (bscore as int, bmove));
            }
            if alpha < bscore {
                match bmove {
                    Some(m) => {
                        memo.insert(state, depth, bscore, m);
                    },
                    None => {},
                }
            }
            (bscore, bmove)
        },
        Err((bscore, bmove)) => (bscore, bmove),
    }
}

/// Searches `state` with a window and with its actions searched side by side, each by
/// [`alpha_beta_func`] on a worker of its own and with the window turned round. No worker
/// learns from another, so nothing is skipped among the actions of `state` itself.
///
/// A score inside the window is the score of `state`, and the action is then one of those
/// that reach it.
pub fn palpha_beta(depth: u8, state: &Configuration, alpha: i8, beta: i8) -> (found: (
    i8,
    Option<Movement>,
))
    requires
        state.wf(),
        i8::MIN < alpha < beta,
    ensures
        found.0 == if expands(state@, depth as nat) {
            side_best(state@, depth as nat, alpha as int, beta as int, state@.moves().len())
        } else {
            state@.value()
        },
        found.1 matches Some(m) ==> exists|i: int|
            0 <= i < state@.moves().len() && m == state@.moves()[i] && found.0 == #[trigger] side_reply(
                state@,
                depth as nat,
                alpha as int,
                beta as int,
                i,
            ),
        tells(found.0 as int, negamax(state@, depth as nat), alpha as int, beta as int),
        found.1 is Some <==> expands(state@, depth as nat),
        found.1 matches Some(m) ==> state@.legal(m) && (alpha < found.0 < beta ==> is_best(
            state@,
            depth as nat,
            m,
        )),
        -64 <= found.0 <= 64,
{
    proof {
        lemma_negamax_bounds(state@, depth as nat);
    }
    if depth == 0 {
        return (state.value(), None);
    }
    let moves = state.movements();
    if moves.len() == 0 {
        return (state.value(), None);
    }
    let scores = par_scores(depth - 1, children(state, &moves), Some((-beta, -alpha)));
    let pairs = scored(&moves, &scores);
    match par_max_by_key(pairs) {
        Some((bmove, bscore)) => {
            proof {
                let s = state@;
                let d = depth as nat;
                let n = moves.len() as nat;
                let i = choose|i: int| 0 <= i < pairs.len() && pairs[i] == (bmove, bscore);
                lemma_child(s, i);
                lemma_best_reply_greatest(s, d, n, i);
                assert(side_reply(s, d, alpha as int, beta as int, i) == bscore);
                assert forall|j: int| 0 <= j < n implies #[trigger] side_reply(
                    s,
                    d,
                    alpha as int,
                    beta as int,
                    j,
                ) <= bscore by {
                    assert(pairs[j].1 <= bscore);
                }
                lemma_side_best(s, d, alpha as int, beta as int, n, bscore as int);
                let top = lemma_best_reply_reached(s, d, n);
                assert(pairs[top].1 <= bscore);
                if alpha < bscore < beta {
                    assert(reply(s, d, i) == bscore);
                    assert(reply(s, d, top) <= bscore);
                }
            }
            (bscore, Some(bmove))
        },
        None => (state.value(), None),
    }
}

/// The static value of the state that each action of `state` leads to.
pub fn child_outlooks(state: &Configuration, moves: &Vec<Movement>) -> (keys: Vec<i8>)
    requires
        state.wf(),
        moves@ == state@.moves(),
    ensures
        keys@ == outlooks(state@),
{
    let mut keys: Vec<i8> = Vec::new();
    let mut i: usize = 0;
    while i < moves.len()
        invariant
            state.wf(),
            moves@ == state@.moves(),
            i <= moves.len(),
            keys.len() == i,
            forall|k: int| 0 <= k < i ==> #[trigger] keys@[k] == outlooks(state@)[k],
        decreases moves.len() - i,
    {
        proof {
            lemma_child(state@, i as int);
        }
        keys.push(state.play(&moves[i]).value());
        i = i + 1;
    }
    assert(keys@ =~= outlooks(state@));
    keys
}

/// Searches `state` as [`alpha_beta`] does, but tries the actions that look best one ply
/// ahead first: by rising static value of the state they lead to, which is read from the
/// side to move there; actions with the same outlook stay in the order they are listed in.
///
/// A score inside the window is the score of `state`, and the action is then the first, in
/// the order tried, to reach it.
pub fn alpha_beta_sorted(depth: u8, state: &Configuration, alpha: i8, beta: i8) -> (found: (
    i8,
    Option<Movement>,
))
    requires
        state.wf(),
        i8::MIN < alpha < beta,
    ensures
        (found.0 as int, found.1) == window_search(
            state@,
            depth as nat,
            alpha as int,
            beta as int,
            true,
        ),
        tells(found.0 as int, negamax(state@, depth as nat), alpha as int, beta as int),
        found.1 is Some <==> expands(state@, depth as nat),
        found.1 matches Some(m) ==> state@.legal(m) && (alpha < found.0 < beta ==> exists|i: int|
            preferred(state@, depth as nat, i) && m == #[trigger] state@.moves()[i]),
        -64 <= found.0 <= 64,
    decreases depth,
{
    proof {
        lemma_window_search(state@, depth as nat, alpha as int, beta as int, true);
    }
    if depth == 0 {
        return (state.value(), None);
    }
    let moves = state.movements();
    if moves.len() == 0 {
        return (state.value(), None);
    }
    let keys = child_outlooks(state, &moves);
    let sorted_moves = ranking(&keys);
    proof {
        lemma_ranked_unique(
            outlooks(state@),
            numbers(sorted_moves@),
            tried(state@, true),
            moves.len() as int,
        );
    }
    let mut raised: i8 = alpha;
    let mut best_score: i8 = i8::MIN;
    let mut best_move: Option<Movement> = None;
    let mut j: usize = 0;
    while j < sorted_moves.len()
        invariant
            state.wf(),
            depth > 0,
            moves@ == state@.moves(),
            sorted_moves.len() == moves.len(),
            numbers(sorted_moves@) == tried(state@, true),
            ranked(outlooks(state@), tried(state@, true), moves.len() as int),
            j <= sorted_moves.len(),
            i8::MIN < alpha <= raised < beta,
            window_scan(
                state@,
                depth as nat,
                beta as int,
                true,
                j as nat,
                best_score as int,
                raised as int,
                best_move,
            ) == window_search(state@, depth as nat, alpha as int, beta as int, true),
        decreases sorted_moves.len() - j,
    {
        let i: usize = sorted_moves[j];
        proof {
            assert(numbers(sorted_moves@)[j as int] == i);
        }
        let movement = moves[i];
        proof {
            lemma_child(state@, i as int);
        }
        let next_conf: Configuration = state.play(&movement);
        let (below, _) = alpha_beta_sorted(depth - 1, &next_conf, -beta, -raised);
        let score: i8 = -below;
        if score > best_score {
            best_score = score;
            best_move = Some(movement);
            if best_score > raised {
                raised = best_score;
            }
            if raised >= beta {
                proof {
                    lemma_window_search(state@, depth as nat, alpha as int, beta as int, true);
                }
                return (best_score, best_move);
            }
        }
        j = j + 1;
    }
    (best_score, best_move)
}

/// One round of the search that runs until it is stopped: searches `state` to `depth` with
/// the widest window, stores the action picked in `movement`, and gives the depth of the next
/// round. Whoever runs the rounds starts at depth one, hands the slot on to the readers after
/// each round, and may be stopped at any time: the readers then have the outcome of the last
/// round that was completed.
///
/// There is no round at depth zero, nor from [`DEPTH_LIMIT`] on: nothing is stored then, and
/// no round follows.
pub fn alpha_beta_anytime(state: &Configuration, depth: u8, movement: &mut AtomicMove) -> (next:
    Option<u8>)
    requires
        state.wf(),
    ensures
        0 < depth < DEPTH_LIMIT ==> final(movement)@ == earliest_choice(state@, depth as nat)
            && next == Some((depth + 1) as u8),
        !(0 < depth < DEPTH_LIMIT) ==> *final(movement) == *old(movement) && next is None,
{
    if depth == 0 || depth >= DEPTH_LIMIT {
        return None;
    }
    let chosen_movement = AlphaBeta(depth).compute_next_move(state);
    movement.store(chosen_movement);
    Some(depth + 1)
}

impl AlphaBeta {
    /// The name of the chooser, with the depth it searches to.
    pub fn name(&self) -> (text: String)
        ensures
            text@ == "Alpha - Beta (max level: "@ + digits(self.0 as nat) + seq![')'],
    {
        labelled("Alpha - Beta (max level: ", self.0)
    }
}

impl Strategy for AlphaBeta {
    /// Searches to the depth held with the widest window, and so picks the earliest best
    /// action, the one that a search of the whole tree picks.
    fn compute_next_move(&mut self, state: &Configuration) -> (choice: Option<Movement>)
        ensures
            choice == earliest_choice(state@, old(self).0 as nat),
            *final(self) == *old(self),
    {
        let (_, choice) = alpha_beta(self.0, state, i8::MIN + 1, i8::MAX);
        choice
    }
}

} // verus!
