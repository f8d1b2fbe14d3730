//! Putting the actions of a state in the order in which a search should try them.

use vstd::prelude::*;

verus! {

/// Whether item `a` is tried before item `b`: it has the lower key; of two items with the
/// same key, the one listed first.
pub open spec fn before(keys: Seq<i8>, a: int, b: int) -> bool {
    keys[a] < keys[b] || (keys[a] == keys[b] && a < b)
}

/// Whether item `i` stands somewhere in `order`.
pub open spec fn placed(order: Seq<int>, i: int) -> bool {
    exists|j: int| 0 <= j < order.len() && #[trigger] order[j] == i
}

/// Whether `order` holds each of the first `n` items once, from the one tried first to the
/// one tried last.
pub open spec fn ranked(keys: Seq<i8>, order: Seq<int>, n: int) -> bool {
    &&& order.len() == n
    &&& forall|j: int| 0 <= j < n ==> 0 <= #[trigger] order[j] < n
    &&& forall|i: int| 0 <= i < n ==> #[trigger] placed(order, i)
    &&& forall|j: int, k: int| 0 <= j < k < n ==> before(keys, #[trigger] order[j], #[trigger] order[k])
}

/// There is one way only to rank the items.
pub proof fn lemma_ranked_unique(keys: Seq<i8>, first: Seq<int>, second: Seq<int>, n: int)
    requires
        ranked(keys, first, n),
        ranked(keys, second, n),
    ensures
        first == second,
{
    assert forall|j: int| 0 <= j < n implies first[j] == second[j] by {
        lemma_ranked_agree(keys, first, second, n, j);
    }
    assert(first =~= second);
}

/// Two rankings of the same items agree at every place.
proof fn lemma_ranked_agree(keys: Seq<i8>, first: Seq<int>, second: Seq<int>, n: int, j: int)
    requires
        ranked(keys, first, n),
        ranked(keys, second, n),
        0 <= j < n,
    ensures
        first[j] == second[j],
    decreases j,
{
    let x = first[j];
    let y = second[j];
    if x != y {
        assert(placed(second, x));
        let u = choose|u: int| 0 <= u < second.len() && #[trigger] second[u] == x;
        if u < j {
            lemma_ranked_agree(keys, first, second, n, u);
            assert(before(keys, first[u], first[j]));
        }
        assert(before(keys, second[j], second[u]));
        assert(placed(first, y));
        let v = choose|v: int| 0 <= v < first.len() && #[trigger] first[v] == y;
        if v < j {
            lemma_ranked_agree(keys, first, second, n, v);
            assert(before(keys, second[v], second[j]));
        }
        assert(before(keys, first[j], first[v]));
    }
}

/// The place at which an item with key `key` goes into a ranking of the items before it:
/// behind the items with that key or a lower one, and in front of the others.
proof fn lemma_place(keys: Seq<i8>, order: Seq<int>, n: int, key: i8, from: int) -> (p: int)
    requires
        ranked(keys, order, n),
        0 <= from <= n,
        forall|j: int| from <= j < n ==> key < keys[#[trigger] order[j]],
    ensures
        0 <= p <= n,
        forall|j: int| 0 <= j < p ==> keys[#[trigger] order[j]] <= key,
        forall|j: int| p <= j < n ==> key < keys[#[trigger] order[j]],
    decreases from,
{
    if from == 0 {
        0
    } else if keys[order[from - 1]] > key {
        lemma_place(keys, order, n, key, from - 1)
    } else {
        assert forall|j: int| 0 <= j < from implies keys[#[trigger] order[j]] <= key by {
            if j < from - 1 {
                assert(before(keys, order[j], order[from - 1]));
            }
        }
        from
    }
}

/// The first `n` items can be ranked.
pub proof fn lemma_ranked_exists(keys: Seq<i8>, n: int) -> (order: Seq<int>)
    requires
        0 <= n <= keys.len(),
    ensures
        ranked(keys, order, n),
    decreases n,
{
    if n == 0 {
        let order = Seq::<int>::empty();
        assert(ranked(keys, order, 0));
        order
    } else {
        let i = n - 1;
        let old_order = lemma_ranked_exists(keys, i);
        let p = lemma_place(keys, old_order, i, keys[i], i);
        let new_order = old_order.insert(p, i);
        assert forall|x: int| 0 <= x < n implies #[trigger] placed(new_order, x) by {
            if x == i {
                assert(new_order[p] == x);
            } else {
                assert(placed(old_order, x));
                let j = choose|j: int| 0 <= j < i && #[trigger] old_order[j] == x;
                if j < p {
                    assert(new_order[j] == x);
                } else {
                    assert(new_order[j + 1] == x);
                }
            }
        }
        assert forall|j: int, k: int| 0 <= j < k < n implies before(
            keys,
            #[trigger] new_order[j],
            #[trigger] new_order[k],
        ) by {
            if k < p {
                assert(new_order[j] == old_order[j] && new_order[k] == old_order[k]);
            } else if k == p {
                assert(new_order[j] == old_order[j]);
            } else if j < p {
                assert(new_order[j] == old_order[j] && new_order[k] == old_order[k - 1]);
            } else if j == p {
                assert(new_order[k] == old_order[k - 1]);
            } else {
                assert(new_order[j] == old_order[j - 1] && new_order[k] == old_order[k - 1]);
            }
        }
        new_order
    }
}

/// The items as plain numbers.
pub open spec fn numbers(order: Seq<usize>) -> Seq<int> {
    order.map_values(|i: usize| i as int)
}

/// Ranks the items by rising key; items with the same key keep the order they are listed in.
pub fn ranking(keys: &Vec<i8>) -> (order: Vec<usize>)
    ensures
        ranked(keys@, numbers(order@), keys.len() as int),
{
    let mut order: Vec<usize> = Vec::new();
    let mut i: usize = 0;
    while i < keys.len()
        invariant
            i <= keys.len(),
            ranked(keys@, numbers(order@), i as int),
        decreases keys.len() - i,
    {
        let ghost old_order = numbers(order@);
        let mut p: usize = order.len();
        proof {
            assert forall|j: int| 0 <= j < order.len() implies #[trigger] order@[j] < i by {
                assert(old_order[j] == order@[j] as int);
            }
        }
        while p > 0 && keys[order[p - 1]] > keys[i]
            invariant
                i < keys.len(),
                p <= order.len(),
                order.len() == i,
                old_order == numbers(order@),
                forall|j: int| 0 <= j < order.len() ==> #[trigger] order@[j] < i,
                ranked(keys@, old_order, i as int),
                forall|j: int| p <= j < i ==> keys@[i as int] < keys@[#[trigger] old_order[j]],
            decreases p,
        {
            p = p - 1;
        }
        order.insert(p, i);
        proof {
            let new_order = numbers(order@);
            assert(new_order =~= old_order.insert(p as int, i as int));
            assert forall|x: int| 0 <= x < i + 1 implies #[trigger] placed(new_order, x) by {
                if x == i {
                    assert(new_order[p as int] == x);
                } else {
                    assert(placed(old_order, x));
                    let j = choose|j: int| 0 <= j < i && #[trigger] old_order[j] == x;
                    if j < p {
                        assert(new_order[j] == x);
                    } else {
                        assert(new_order[j + 1] == x);
                    }
                }
            }
            assert forall|j: int, k: int| 0 <= j < k < i + 1 implies before(
                keys@,
                #[trigger] new_order[j],
                #[trigger] new_order[k],
            ) by {
                if k < p {
                    assert(new_order[j] == old_order[j] && new_order[k] == old_order[k]);
                } else if k == p {
                    assert(new_order[j] == old_order[j]);
                    if p > 0 {
                        assert(before(keys@, old_order[j], old_order[p - 1]) || j == p - 1);
                    }
                } else if j < p {
                    assert(new_order[j] == old_order[j] && new_order[k] == old_order[k - 1]);
                } else if j == p {
                    assert(new_order[k] == old_order[k - 1]);
                } else {
                    assert(new_order[j] == old_order[j - 1] && new_order[k] == old_order[k - 1]);
                }
            }
        }
        i = i + 1;
    }
    order
}

} // verus!
