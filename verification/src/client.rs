//! How the client ends the transaction that it opens for a single
//! operation.

use vstd::prelude::*;

verus! {

/// An operation that the client runs in a transaction of its own.
#[derive(Clone, Copy, Debug, PartialEq, Eq, Structural)]
pub enum Operation {
    Add,
    Get,
    Delete,
    Update,
    Scan,
    BatchAdd,
    BatchGet,
    BatchDelete,
}

/// How a transaction ends.
#[derive(Clone, Copy, Debug, PartialEq, Eq, Structural)]
pub enum Ending {
    /// Make the writes of the transaction durable.
    Commit,
    /// Discard the transaction.
    Rollback,
}

impl Operation {
    /// Whether the operation writes.
    pub open spec fn writes(self) -> bool {
        match self {
            Operation::Get | Operation::Scan | Operation::BatchGet => false,
            _ => true,
        }
    }

    /// How the client ends the transaction after this operation: an
    /// operation that writes is committed, and one that only reads is rolled
    /// back, since it has nothing to make durable and a rollback takes no
    /// part in the detection of conflicts.
    pub fn ending(self) -> (end: Ending)
        ensures
            end == (if self.writes() {
                Ending::Commit
            } else {
                Ending::Rollback
            }),
    {
        match self {
            Operation::Get | Operation::Scan | Operation::BatchGet => Ending::Rollback,
            _ => Ending::Commit,
        }
    }
}

} // verus!
