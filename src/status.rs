//! What a task reports, and why a submission is refused.
use vstd::prelude::*;
use crate::group::Group;

verus! {

/// Why a submission was refused. None of them ends the process; each ends
/// only the submission that met it.
#[derive(Clone, Copy, Debug, PartialEq, Eq, Structural)]
pub enum TaskError {
    /// The device is not among those the current round still waits for.
    NotAwaited,
    /// The payload is not a round envelope with one entry per other device.
    DecodeError,
    /// The device is not in the roster.
    UnknownDevice,
    /// The last round completed without the cell that carries the result.
    IncompleteResult,
}

/// The two kinds of ceremony.
#[derive(Clone, Copy, Debug, PartialEq, Eq, Structural)]
pub enum TaskType {
    GG18Group,
    Sign,
}

/// What a task reports to the server that hosts it.
#[derive(Clone, Debug)]
pub enum TaskStatus {
    /// Still in progress: the devices the current round waits for, in roster order.
    Waiting(Vec<Vec<u8>>),
    /// Key generation finished with this group public key.
    KeysGenerated(Vec<u8>),
    /// Key generation finished and established this group.
    GroupEstablished(Group),
    /// Signing finished with this signature.
    Signed(Vec<u8>),
    /// The ceremony ended without a usable result, for this reason.
    Failed(Vec<u8>),
}

} // verus!
