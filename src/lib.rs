//! Builds a guessing strategy for a five-letter word game: a feedback
//! scorer, a ranking of guesses, and a depth-bounded tree search.
use vstd::prelude::*;

pub mod score;
pub mod partition;
pub mod tree;
pub mod rank;
pub mod search;

verus! {

} // verus!
