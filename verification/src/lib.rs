//! Search engine for a two-player blob conquest game on an eight by eight grid.
//!
//! The game model lives in [`positions`], [`board`] and [`configuration`]. What a search is
//! to find is said in [`tree`]; the move choosers that find it live under [`strategy`].
//! [`shmem`] holds the slot through which a search that runs until it is stopped hands out
//! its best action so far.

pub mod board;
pub mod configuration;
pub mod positions;
pub mod shmem;
pub mod strategy;
pub mod tree;
