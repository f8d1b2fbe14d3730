//! What a search with a window finds, and what that says about the score of the state.
//!
//! A search is given a window of scores, from `alpha` up to `beta`. A score strictly inside
//! the window is the score of the state; a score at or below `alpha` is only known to be no
//! less than it, and a score at or above `beta` only known to be no more.

use crate::configuration::{Movement, State};
use crate::strategy::ranking::{before, lemma_ranked_exists, placed, ranked};
use crate::tree::{
    best_reply, earliest_choice, expands, first_best, lemma_best_reply_greatest,
    lemma_best_reply_reached, lemma_child, lemma_choices_are_best, lemma_negamax_bounds,
    lemma_reply_bounds, negamax, no_score, reply,
};
use vstd::prelude::*;

verus! {

/// Whether `score`, found with the window from `alpha` to `beta`, tells what `exact` is as
/// far as the window lets it.
pub open spec fn tells(score: int, exact: int, alpha: int, beta: int) -> bool {
    &&& score <= alpha ==> exact <= score
    &&& score >= beta ==> exact >= score
    &&& alpha < score < beta ==> score == exact
}

/// What holds once the actions `order[0]`, .., `order[done - 1]` of `s` have been searched
/// without a cut: `best` is no less than the score of any of them; if it has risen above
/// `alpha`, it is the score of `kept`, the first of them to have it; and `raised` is the
/// lower end of the window by now.
pub open spec fn scanned(
    s: State,
    depth: nat,
    alpha: int,
    beta: int,
    order: Seq<int>,
    done: int,
    best: int,
    raised: int,
    kept: Option<Movement>,
) -> bool {
    &&& 0 <= done <= order.len()
    &&& raised == if best > alpha {
        best
    } else {
        alpha
    }
    &&& raised < beta
    &&& forall|t: int| 0 <= t < done ==> #[trigger] reply(s, depth, order[t]) <= best
    &&& best > alpha ==> exists|t: int|
        0 <= t < done && #[trigger] reply(s, depth, order[t]) == best && kept == Some(
            s.moves()[order[t]],
        ) && forall|u: int| 0 <= u < t ==> #[trigger] reply(s, depth, order[u]) < best
    &&& if done == 0 {
        best == no_score() && kept is None
    } else {
        -64 <= best <= 64 && kept is Some && s.legal(kept->0)
    }
}

/// The actions of a state in the order in which they are listed.
pub open spec fn listed(n: nat) -> Seq<int> {
    Seq::new(n, |i: int| i)
}

/// The static values of the states that the actions of `s` lead to, each read from the side
/// to move there: the lower, the better the action looks one ply ahead.
pub open spec fn outlooks(s: State) -> Seq<i8> {
    Seq::new(s.moves().len(), |i: int| s.after(s.moves()[i]).value() as i8)
}

/// The order in which a search tries the actions of `s`: as they are listed or, where
/// `by_outlook` is set, by rising outlook, actions with the same outlook as they are listed.
pub open spec fn tried(s: State, by_outlook: bool) -> Seq<int> {
    if by_outlook {
        choose|order: Seq<int>| ranked(outlooks(s), order, s.moves().len() as int)
    } else {
        listed(s.moves().len())
    }
}

/// What a search of `s` to `depth` with the window from `alpha` to `beta` returns: the value
/// of `s` and no action where it does not descend, and else what the scan of the actions
/// leaves.
pub open spec fn window_search(s: State, depth: nat, alpha: int, beta: int, by_outlook: bool) -> (
    int,
    Option<Movement>,
)
    decreases depth, 1nat, 0nat,
{
    if expands(s, depth) {
        window_scan(s, depth, beta, by_outlook, 0, no_score(), alpha, None)
    } else {
        (s.value(), None)
    }
}

/// What the scan of the actions of `s` leaves, taken up after `done` actions with the best
/// score `best`, reached by `kept`, and the lower end of the window at `raised`. The next
/// action is searched with the window turned round; a greater score replaces the best and
/// may raise the lower end, and once that meets `beta` the scan ends.
pub open spec fn window_scan(
    s: State,
    depth: nat,
    beta: int,
    by_outlook: bool,
    done: nat,
    best: int,
    raised: int,
    kept: Option<Movement>,
) -> (int, Option<Movement>)
    decreases depth, 0nat, s.moves().len() - done,
{
    if depth == 0 || done >= s.moves().len() {
        (best, kept)
    } else {
        let m = s.moves()[tried(s, by_outlook)[done as int]];
        let score = -window_search(s.after(m), (depth - 1) as nat, -beta, -raised, by_outlook).0;
        if score > best {
            let lifted = if score > raised {
                score
            } else {
                raised
            };
            if lifted >= beta {
                (score, Some(m))
            } else {
                window_scan(s, depth, beta, by_outlook, done + 1, score, lifted, Some(m))
            }
        } else {
            window_scan(s, depth, beta, by_outlook, done + 1, best, raised, kept)
        }
    }
}

/// The first action to reach the best score is the earliest choice.
pub proof fn lemma_earliest(s: State, depth: nat, n: nat, t: int)
    requires
        0 <= t < n <= s.moves().len(),
        reply(s, depth, t) == best_reply(s, depth, n),
        reply(s, depth, t) > no_score(),
        forall|u: int| 0 <= u < t ==> #[trigger] reply(s, depth, u) < reply(s, depth, t),
    ensures
        first_best(s, depth, n) == Some(s.moves()[t]),
    decreases n,
{
    if t == n - 1 {
        lemma_not_below(s, depth, (n - 1) as nat, reply(s, depth, t));
    } else {
        lemma_best_reply_greatest(s, depth, (n - 1) as nat, t);
        assert(best_reply(s, depth, (n - 1) as nat) == reply(s, depth, t));
        lemma_earliest(s, depth, (n - 1) as nat, t);
    }
}

/// Where every one of the first `n` actions scores less than `bound`, so does the best of
/// them, as long as `bound` is a score.
pub proof fn lemma_not_below(s: State, depth: nat, n: nat, bound: int)
    requires
        forall|u: int| 0 <= u < n ==> #[trigger] reply(s, depth, u) < bound,
        bound > no_score(),
    ensures
        best_reply(s, depth, n) < bound,
    decreases n,
{
    if n > 0 {
        lemma_not_below(s, depth, (n - 1) as nat, bound);
        assert(reply(s, depth, n - 1) < bound);
    }
}

/// What the scan has found once every action has been searched without a cut, in whatever
/// order, tells the score of the state; above `alpha` it is that score.
pub proof fn lemma_scan_tells(
    s: State,
    depth: nat,
    alpha: int,
    beta: int,
    order: Seq<int>,
    best: int,
    raised: int,
    kept: Option<Movement>,
)
    requires
        s.wf(),
        expands(s, depth),
        order.len() == s.moves().len(),
        forall|j: int| 0 <= j < order.len() ==> 0 <= #[trigger] order[j] < order.len(),
        forall|i: int| 0 <= i < order.len() ==> #[trigger] placed(order, i),
        scanned(s, depth, alpha, beta, order, order.len() as int, best, raised, kept),
    ensures
        tells(best, negamax(s, depth), alpha, beta),
        best > alpha ==> best == negamax(s, depth),
{
    let n = s.moves().len();
    let i = lemma_best_reply_reached(s, depth, n);
    assert(placed(order, i));
    let j = choose|j: int| 0 <= j < order.len() && #[trigger] order[j] == i;
    assert(reply(s, depth, order[j]) <= best);
    if best > alpha {
        let t = choose|t: int|
            0 <= t < n && #[trigger] reply(s, depth, order[t]) == best && kept == Some(
                s.moves()[order[t]],
            ) && forall|u: int| 0 <= u < t ==> #[trigger] reply(s, depth, order[u]) < best;
        lemma_best_reply_greatest(s, depth, n, order[t]);
    }
}

/// What the scan has found once every action has been searched without a cut, in the order
/// in which they are listed, tells the score of the state, and inside the window the action
/// kept is the earliest choice.
pub proof fn lemma_scan_complete(
    s: State,
    depth: nat,
    alpha: int,
    beta: int,
    best: int,
    raised: int,
    kept: Option<Movement>,
)
    requires
        s.wf(),
        expands(s, depth),
        scanned(
            s,
            depth,
            alpha,
            beta,
            listed(s.moves().len()),
            s.moves().len() as int,
            best,
            raised,
            kept,
        ),
    ensures
        tells(best, negamax(s, depth), alpha, beta),
        alpha < best < beta ==> kept == earliest_choice(s, depth),
{
    let n = s.moves().len();
    let order = listed(n);
    assert forall|i: int| 0 <= i < order.len() implies #[trigger] placed(order, i) by {
        assert(order[i] == i);
    }
    lemma_scan_tells(s, depth, alpha, beta, order, best, raised, kept);
    if best > alpha {
        let t = choose|t: int|
            0 <= t < n && #[trigger] reply(s, depth, order[t]) == best && kept == Some(
                s.moves()[order[t]],
            ) && forall|u: int| 0 <= u < t ==> #[trigger] reply(s, depth, order[u]) < best;
        lemma_reply_bounds(s, depth, t);
        assert forall|u: int| 0 <= u < t implies #[trigger] reply(s, depth, u) < reply(
            s,
            depth,
            t,
        ) by {
            assert(reply(s, depth, order[u]) < best);
        }
        lemma_earliest(s, depth, n, t);
    }
}

/// Whether action number `i` of `s` has the score of `s` and is tried before every other
/// action that has it, when the actions are tried by rising outlook.
pub open spec fn preferred(s: State, depth: nat, i: int) -> bool {
    &&& 0 <= i < s.moves().len()
    &&& reply(s, depth, i) == negamax(s, depth)
    &&& forall|k: int|
        0 <= k < s.moves().len() && k != i && #[trigger] reply(s, depth, k) == negamax(s, depth)
            ==> before(outlooks(s), i, k)
}

/// One action at most is preferred.
pub proof fn lemma_preferred_unique(s: State, depth: nat, i: int, k: int)
    requires
        preferred(s, depth, i),
        preferred(s, depth, k),
    ensures
        i == k,
{
    if i != k {
        assert(reply(s, depth, k) == negamax(s, depth));
        assert(reply(s, depth, i) == negamax(s, depth));
        assert(before(outlooks(s), i, k));
        assert(before(outlooks(s), k, i));
    }
}

/// What the scan has found once every action has been searched without a cut, by rising
/// outlook, tells the score of the state, and inside the window the action kept is the
/// preferred one.
pub proof fn lemma_scan_ranked(
    s: State,
    depth: nat,
    alpha: int,
    beta: int,
    order: Seq<int>,
    best: int,
    raised: int,
    kept: Option<Movement>,
)
    requires
        s.wf(),
        expands(s, depth),
        ranked(outlooks(s), order, s.moves().len() as int),
        scanned(s, depth, alpha, beta, order, order.len() as int, best, raised, kept),
    ensures
        tells(best, negamax(s, depth), alpha, beta),
        alpha < best < beta ==> exists|i: int|
            preferred(s, depth, i) && kept == Some(#[trigger] s.moves()[i]),
{
    let n = s.moves().len();
    lemma_scan_tells(s, depth, alpha, beta, order, best, raised, kept);
    if best > alpha {
        let t = choose|t: int|
            0 <= t < n && #[trigger] reply(s, depth, order[t]) == best && kept == Some(
                s.moves()[order[t]],
            ) && forall|u: int| 0 <= u < t ==> #[trigger] reply(s, depth, order[u]) < best;
        let i = order[t];
        assert forall|k: int|
            0 <= k < n && k != i && #[trigger] reply(s, depth, k) == negamax(
                s,
                depth,
            ) implies before(outlooks(s), i, k) by {
            assert(placed(order, k));
            let u = choose|u: int| 0 <= u < order.len() && #[trigger] order[u] == k;
            if u < t {
                assert(reply(s, depth, order[u]) < best);
            }
            assert(before(outlooks(s), order[t], order[u]));
        }
        assert(preferred(s, depth, i));
    }
}

/// The order in which the actions are tried holds each action once.
pub proof fn lemma_tried(s: State, by_outlook: bool)
    ensures
        tried(s, by_outlook).len() == s.moves().len(),
        forall|j: int|
            0 <= j < s.moves().len() ==> 0 <= #[trigger] tried(s, by_outlook)[j] < s.moves().len(),
        forall|i: int| 0 <= i < s.moves().len() ==> #[trigger] placed(tried(s, by_outlook), i),
        by_outlook ==> ranked(outlooks(s), tried(s, by_outlook), s.moves().len() as int),
{
    let n = s.moves().len();
    if by_outlook {
        let witness = lemma_ranked_exists(outlooks(s), n as int);
        assert(ranked(outlooks(s), witness, n as int));
    } else {
        let order = listed(n);
        assert forall|i: int| 0 <= i < n implies #[trigger] placed(order, i) by {
            assert(order[i] == i);
        }
    }
}

/// What holds of the score and the action that a search of `s` to `depth` with the window
/// from `alpha` to `beta` returns: the score tells the score of `s` as far as the window lets
/// it; there is an action exactly where the search descends, and it is legal; inside the
/// window it is the first, in the order tried, to reach the score of `s`.
pub open spec fn sound(
    s: State,
    depth: nat,
    alpha: int,
    beta: int,
    by_outlook: bool,
    found: (int, Option<Movement>),
) -> bool {
    &&& -64 <= found.0 <= 64
    &&& tells(found.0, negamax(s, depth), alpha, beta)
    &&& found.1 is Some <==> expands(s, depth)
    &&& found.1 matches Some(m) ==> s.legal(m) && (alpha < found.0 < beta ==> if by_outlook {
        exists|i: int| preferred(s, depth, i) && m == #[trigger] s.moves()[i]
    } else {
        found.1 == earliest_choice(s, depth)
    })
}

/// A search with a window is a search of the whole tree that skips what cannot matter: the
/// score it returns tells the score that the search of the whole tree finds, as far as the
/// window lets it; inside the window it is that score, and the action is the first, in the
/// order tried, to reach it. With the widest window the two searches return the same score
/// at every depth.
pub proof fn lemma_window_search(s: State, depth: nat, alpha: int, beta: int, by_outlook: bool)
    requires
        s.wf(),
        i8::MIN < alpha < beta <= i8::MAX,
    ensures
        sound(s, depth, alpha, beta, by_outlook, window_search(s, depth, alpha, beta, by_outlook)),
    decreases depth, 1nat, 0nat,
{
    lemma_negamax_bounds(s, depth);
    if expands(s, depth) {
        lemma_tried(s, by_outlook);
        lemma_window_scan(s, depth, alpha, beta, by_outlook, 0, no_score(), alpha, None);
    }
}

/// The scan of the actions, taken up where it stands, leaves what [`lemma_window_search`]
/// says of the whole search.
pub proof fn lemma_window_scan(
    s: State,
    depth: nat,
    alpha: int,
    beta: int,
    by_outlook: bool,
    done: nat,
    best: int,
    raised: int,
    kept: Option<Movement>,
)
    requires
        s.wf(),
        expands(s, depth),
        i8::MIN < alpha < beta <= i8::MAX,
        scanned(s, depth, alpha, beta, tried(s, by_outlook), done as int, best, raised, kept),
    ensures
        sound(
            s,
            depth,
            alpha,
            beta,
            by_outlook,
            window_scan(s, depth, beta, by_outlook, done, best, raised, kept),
        ),
    decreases depth, 0nat, s.moves().len() - done,
{
    let n = s.moves().len();
    let order = tried(s, by_outlook);
    lemma_tried(s, by_outlook);
    lemma_negamax_bounds(s, depth);
    if done >= n {
        if by_outlook {
            lemma_scan_ranked(s, depth, alpha, beta, order, best, raised, kept);
        } else {
            lemma_scan_complete(s, depth, alpha, beta, best, raised, kept);
        }
    } else {
        let i = order[done as int];
        let m = s.moves()[i];
        lemma_child(s, i);
        lemma_reply_bounds(s, depth, i);
        lemma_window_search(s.after(m), (depth - 1) as nat, -beta, -raised, by_outlook);
        let score = -window_search(s.after(m), (depth - 1) as nat, -beta, -raised, by_outlook).0;
        if score > best {
            let lifted = if score > raised {
                score
            } else {
                raised
            };
            if lifted >= beta {
                lemma_best_reply_greatest(s, depth, n, i);
            } else {
                lemma_window_scan(
                    s,
                    depth,
                    alpha,
                    beta,
                    by_outlook,
                    done + 1,
                    score,
                    lifted,
                    Some(m),
                );
            }
        } else {
            lemma_window_scan(s, depth, alpha, beta, by_outlook, done + 1, best, raised, kept);
        }
    }
}

/// With the widest window, a search with a window and a search of the whole tree return the
/// same score, at every depth and whatever the order in which the actions are tried.
pub proof fn lemma_same_score(s: State, depth: nat, by_outlook: bool)
    requires
        s.wf(),
    ensures
        window_search(s, depth, i8::MIN + 1, i8::MAX as int, by_outlook).0 == negamax(s, depth),
        !by_outlook ==> window_search(s, depth, i8::MIN + 1, i8::MAX as int, by_outlook).1
            == earliest_choice(s, depth),
{
    lemma_window_search(s, depth, i8::MIN + 1, i8::MAX as int, by_outlook);
    if expands(s, depth) {
        lemma_choices_are_best(s, depth, false);
    }
}

/// With the widest window a search that tells what its window lets it tells the score
/// itself: searching with a window, in whatever order, side by side or with a table at hand,
/// changes nothing in the score that the search of the whole tree finds.
pub proof fn lemma_widest_window(score: int, exact: int)
    requires
        -64 <= score <= 64,
        tells(score, exact, i8::MIN + 1, i8::MAX as int),
    ensures
        score == exact,
{
}

} // verus!
