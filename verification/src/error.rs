use vstd::prelude::*;

verus! {

/// Why a call was refused. Every failure aborts the whole call: a function
/// that returns one of these leaves the receiver exactly as it was.
#[derive(Clone, Copy, PartialEq, Eq, Structural, Debug)]
pub enum Error {
    /// The caller is not the designated controller of this instance.
    NotAuthorized,
    /// A round is already running, so joining or starting is refused.
    GameAlreadyActive,
    /// No round is running, so settling is refused.
    GameNotActive,
    /// The caller already joined the pending round.
    PlayerAlreadyJoined,
    /// The external value-transfer primitive reported failure.
    TransferFailed,
}

} // verus!
