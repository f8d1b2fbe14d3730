//! The move choosers: each picks the next action of the side to move.

pub mod alphabeta;
pub mod greedy;
pub mod memo;
pub mod minmax;
pub mod parallel;
pub mod ranking;
pub mod window;

pub use alphabeta::{alpha_beta_anytime, AlphaBeta};
pub use greedy::Greedy;
pub use minmax::{min_max_anytime, MinMax};

use crate::configuration::{Configuration, Movement};
use vstd::prelude::*;

verus! {

/// The character that stands for a number below ten.
pub open spec fn digit(n: nat) -> char {
    if n == 0 {
        '0'
    } else if n == 1 {
        '1'
    } else if n == 2 {
        '2'
    } else if n == 3 {
        '3'
    } else if n == 4 {
        '4'
    } else if n == 5 {
        '5'
    } else if n == 6 {
        '6'
    } else if n == 7 {
        '7'
    } else if n == 8 {
        '8'
    } else {
        '9'
    }
}

/// A number written in base ten, without leading zeros.
pub open spec fn digits(n: nat) -> Seq<char>
    decreases n,
{
    if n < 10 {
        seq![digit(n)]
    } else {
        digits(n / 10).push(digit(n % 10))
    }
}

/// Writes `label`, `level` and a closing bracket with `format!`.
///
/// Believed of std: `{}` writes a string as it is and an unsigned number in base ten without
/// leading zeros.
#[verifier::external_body]
pub(crate) fn labelled(label: &str, level: u8) -> (text: String)
    ensures
        text@ == label@ + digits(level as nat) + seq![')'],
{
    format!("{}{})", label, level)
}

/// What every move chooser offers.
pub trait Strategy {
    /// Picks the next action of the side to move, if it picks any.
    ///
    /// The answer is a legal action or nothing; it is nothing where the side to move has no
    /// legal action, which is a pass and no error.
    fn compute_next_move(&mut self, state: &Configuration) -> (choice: Option<Movement>)
        requires
            state.wf(),
        ensures
            choice matches Some(m) ==> state@.legal(m),
            !state@.can_move() ==> choice is None,
    ;
}

} // verus!
