//! A table of search results, filed under the key of the state they belong to.
//!
//! A score found with a window may be a bound only, good for that window and no other. The
//! table therefore takes exact scores only, each with the depth it was found at, and gives
//! one back only for the depth asked for.

use crate::board::Board;
use crate::configuration::{Configuration, Key, Movement, State};
use crate::tree::{earliest_choice, negamax};
use std::collections::HashMap;
use vstd::prelude::*;

verus! {

/// One result: the score of a state searched to `depth`, and the earliest action to reach it.
#[derive(Clone, Copy, Debug, PartialEq, Eq, Structural)]
pub struct Entry {
    /// The depth of the search.
    pub depth: u8,
    /// The score of the state for its side to move.
    pub score: i8,
    /// The action that the search picked.
    pub movement: Movement,
}

/// Whether `e` is what the search of the whole tree of `s` finds at the depth of `e`.
pub open spec fn recorded(s: State, e: Entry) -> bool {
    &&& e.score == negamax(s, e.depth as nat)
    &&& Some(e.movement) == earliest_choice(s, e.depth as nat)
}

/// The results gathered on one board.
pub struct Memo {
    board: Board,
    red_to_move: HashMap<u128, Entry>,
    blue_to_move: HashMap<u128, Entry>,
}

impl Memo {
    /// The cells in play of the board that the table belongs to.
    pub closed spec fn cells(&self) -> Set<int> {
        self.board@
    }

    /// The result filed under `k`, if there is one.
    pub closed spec fn entry(&self, k: Key) -> Option<Entry> {
        if k.blue_to_move {
            if self.blue_to_move@.contains_key(k.cells) {
                Some(self.blue_to_move@[k.cells])
            } else {
                None
            }
        } else {
            if self.red_to_move@.contains_key(k.cells) {
                Some(self.red_to_move@[k.cells])
            } else {
                None
            }
        }
    }

    /// The result filed under `k` for a search to `depth`, if there is one.
    pub open spec fn filed(&self, k: Key, depth: u8) -> Option<(i8, Movement)> {
        match self.entry(k) {
            Some(e) => if e.depth == depth {
                Some((e.score, e.movement))
            } else {
                None
            },
            None => None,
        }
    }

    /// Whether this table holds the same results as `other`.
    pub open spec fn same_entries(&self, other: &Memo) -> bool {
        forall|k: Key| #[trigger] self.entry(k) == other.entry(k)
    }

    /// Whether what the table holds for `c`, if anything, is right.
    pub open spec fn right_for(&self, c: Configuration) -> bool {
        c.wf() && c@.cells == self.cells() ==> match self.entry(c.key()) {
            Some(e) => recorded(c@, e),
            None => true,
        }
    }

    /// Every result in the table is right for the state on its board that has the key.
    pub open spec fn wf(&self) -> bool {
        forall|c: Configuration| #[trigger] self.right_for(c)
    }

    /// An empty table for searches on `board`.
    pub fn new(board: &Board) -> (memo: Memo)
        ensures
            memo.wf(),
            memo.cells() == board@,
            forall|k: Key| memo.entry(k) is None,
    {
        Memo { board: *board, red_to_move: HashMap::new(), blue_to_move: HashMap::new() }
    }

    /// The result filed for `state` at `depth`, if there is one.
    pub fn get(&self, state: &Configuration, depth: u8) -> (found: Option<(i8, Movement)>)
        ensures
            found == self.filed(state.key(), depth),
    {
        broadcast use vstd::std_specs::hash::group_hash_axioms;

        let k = state.serialize();
        let hit = if k.blue_to_move {
            self.blue_to_move.get(&k.cells)
        } else {
            self.red_to_move.get(&k.cells)
        };
        match hit {
            Some(e) => if e.depth == depth {
                Some((e.score, e.movement))
            } else {
                None
            },
            None => None,
        }
    }

    /// Files a result for `state`, in place of the one filed for it before, if any.
    pub fn insert(&mut self, state: &Configuration, depth: u8, score: i8, movement: Movement)
        requires
            old(self).wf(),
            state.wf(),
            state@.cells == old(self).cells(),
            recorded(state@, Entry { depth, score, movement }),
        ensures
            final(self).wf(),
            final(self).cells() == old(self).cells(),
            forall|k: Key|
                #[trigger] final(self).entry(k) == if k == state.key() {
                    Some(Entry { depth, score, movement })
                } else {
                    old(self).entry(k)
                },
    {
        broadcast use vstd::std_specs::hash::group_hash_axioms;

        let k = state.serialize();
        let e = Entry { depth, score, movement };
        if k.blue_to_move {
            self.blue_to_move.insert(k.cells, e);
        } else {
            self.red_to_move.insert(k.cells, e);
        }
        proof {
            assert forall|c: Configuration| #[trigger] final(self).right_for(c) by {
                assert(old(self).right_for(c));
                if c.wf() && c@.cells == self.cells() && c.key() == state.key() {
                    c.lemma_key(*state);
                    assert(c@ =~= state@);
                }
            }
        }
    }
}

} // verus!
