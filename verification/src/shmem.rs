//! The slot through which a search that runs until it is stopped hands out its best action.
//!
//! The slot is one machine word, so that whoever reads it sees a whole action, never half of
//! one. The word of an action that was stored reads back as that action; the word zero reads
//! as no action.

use crate::configuration::Movement;
use vstd::prelude::*;

verus! {

/// The word that stands for `m`.
pub open spec fn encoded(m: Option<Movement>) -> int {
    match m {
        None => 0,
        Some(Movement::Duplicate(from, to)) => 0x1_0000 + from * 0x100 + to,
        Some(Movement::Jump(from, to)) => 0x3_0000 + from * 0x100 + to,
    }
}

/// The action that `word` stands for: none unless its seventeenth bit is set; then a jump if
/// its eighteenth bit is set, and a duplication else, from the cell in its second byte to the
/// cell in its first.
pub open spec fn decoded(word: int) -> Option<Movement> {
    if (word / 0x1_0000) % 2 == 0 {
        None
    } else if (word / 0x2_0000) % 2 == 0 {
        Some(Movement::Duplicate(((word / 0x100) % 0x100) as u8, (word % 0x100) as u8))
    } else {
        Some(Movement::Jump(((word / 0x100) % 0x100) as u8, (word % 0x100) as u8))
    }
}

/// Whatever is written into a word reads back as it was.
pub proof fn lemma_round_trip(m: Option<Movement>)
    ensures
        decoded(encoded(m)) == m,
        0 <= encoded(m) < 0x4_0000,
{
}

/// The word that stands for `m`.
pub fn encode(m: Option<Movement>) -> (word: u32)
    ensures
        word == encoded(m),
{
    match m {
        None => 0,
        Some(Movement::Duplicate(from, to)) => 0x1_0000 + (from as u32) * 0x100 + (to as u32),
        Some(Movement::Jump(from, to)) => 0x3_0000 + (from as u32) * 0x100 + (to as u32),
    }
}

/// The action that `word` stands for.
pub fn decode(word: u32) -> (m: Option<Movement>)
    ensures
        m == decoded(word as int),
{
    let from: u8 = ((word / 0x100) % 0x100) as u8;
    let to: u8 = (word % 0x100) as u8;
    if (word / 0x1_0000) % 2 == 0 {
        None
    } else if (word / 0x2_0000) % 2 == 0 {
        Some(Movement::Duplicate(from, to))
    } else {
        Some(Movement::Jump(from, to))
    }
}

/// A slot that holds one action or none. Storing overwrites; reading gives what was stored
/// last, and no action as long as nothing was stored.
#[derive(Clone, Copy, Debug, PartialEq, Eq, Structural)]
pub struct AtomicMove {
    word: u32,
}

impl View for AtomicMove {
    type V = Option<Movement>;

    closed spec fn view(&self) -> Option<Movement> {
        decoded(self.word as int)
    }
}

impl AtomicMove {
    /// The word in the slot.
    pub closed spec fn raw(&self) -> int {
        self.word as int
    }

    /// What a slot holds is what its word stands for.
    pub proof fn lemma_view(self)
        ensures
            self@ == decoded(self.raw()),
    {
    }

    /// A slot into which nothing has been stored yet.
    pub fn new() -> (slot: AtomicMove)
        ensures
            slot.raw() == 0,
            slot@ is None,
    {
        AtomicMove { word: 0 }
    }

    /// The slot as a reader finds it who is handed `word`.
    pub fn from_word(word: u32) -> (slot: AtomicMove)
        ensures
            slot.raw() == word,
            slot@ == decoded(word as int),
    {
        AtomicMove { word }
    }

    /// The word to hand to the readers; it stands for what the slot holds.
    pub fn word(&self) -> (word: u32)
        ensures
            word == self.raw(),
            decoded(word as int) == self@,
    {
        self.word
    }

    /// Puts `m` in the slot, in place of what it held.
    pub fn store(&mut self, m: Option<Movement>)
        ensures
            final(self).raw() == encoded(m),
            final(self)@ == m,
    {
        proof {
            lemma_round_trip(m);
        }
        self.word = encode(m);
    }

    /// What the slot holds.
    pub fn load(&self) -> (m: Option<Movement>)
        ensures
            m == self@,
    {
        decode(self.word)
    }
}

} // verus!
