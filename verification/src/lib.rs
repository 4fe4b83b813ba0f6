use vstd::prelude::*;

pub mod card;
pub mod deck;
pub mod game;
pub mod hand;
pub mod order;
pub mod utils;

verus! {

/// Failures the evaluation engine reports to its caller. Every one of them is
/// a precondition violation on the caller's side; none is transient.
#[derive(Clone, Copy, PartialEq, Eq, Structural, Debug)]
pub enum EvalError {
    /// Card or hand text that does not follow the `"<rank><suit>"` shape.
    InvalidCardFormat,
    /// A hand classifier input that does not hold exactly five cards.
    InvalidHandSize,
    /// A best-hand candidate set with fewer than five cards.
    InsufficientCandidates,
    /// A request for k-combinations with k larger than the sequence.
    InvalidCombinationSize,
}

} // verus!
