//! A puzzle-style password validator.
//!
//! A session holds an ordered catalogue of conditions, some of them with
//! parameters drawn at random when the session starts. Each pass over the
//! catalogue finds the first condition that the password violates, the
//! primary failure, and marks it as discovered; violated conditions that were
//! discovered before are reported with it.
//!
//! - [`text`], [`numerals`], [`lexicon`]: what the conditions are made of.
//! - [`feedback`]: the colours of a guess in a word puzzle.
//! - [`grid`], [`carver`], [`maze`]: a random maze, which is a spanning tree of
//!   its grid, and the one way through it between two cells.
//! - [`reading`], [`clock`]: what a condition reads of the inputs.
//! - [`conditions`], [`catalogue`]: the conditions, their hints and their order.
//! - [`session`]: the pass, the flags, and the tick of the timer.

pub mod carver;
pub mod catalogue;
mod chance;
pub mod clock;
pub mod conditions;
pub mod feedback;
pub mod grid;
pub mod lexicon;
pub mod maze;
pub mod numerals;
pub mod reading;
pub mod session;
pub mod text;
