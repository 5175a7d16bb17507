//! Why an operation is refused.
use vstd::prelude::*;

verus! {

/// Why an operation was refused.
#[derive(Clone, Copy, Debug, PartialEq, Eq, Structural)]
pub enum ErrorKind {
    /// A negative quantity, or one that the receiving ledger cannot hold.
    InvalidQuantity,
    /// More stuff was asked for than the ledger holds.
    InsufficientStuff,
    /// No run of held units adds up to the amount asked for.
    CannotCollect,
    /// The event is not accepted in the game's present state.
    IllegalTransition,
    /// The action has not yet come round to the acting seat.
    NotYourTurn,
    /// The bet does not stand in the required relation to the amount to meet.
    BetMismatch,
    /// The roster has no free seat.
    RosterFull,
}

} // verus!
