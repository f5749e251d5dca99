//! The reasons for which an operation is refused.

use vstd::prelude::*;

verus! {

/// Why an operation was refused. A refused operation changes nothing.
#[derive(Clone, Copy, Debug, PartialEq, Eq, Structural)]
pub enum Error {
    /// The caller is not on the list of those who may change the record.
    Unauthorized,
    /// A juror identifier is longer than the store's keys may be.
    IdentifierTooLong,
    /// A juror that is active was to be added again.
    AlreadyActive,
    /// A juror's history already holds as many transitions as it may.
    HistoryFull,
    /// A random seed is not 32 bytes long.
    BadSeedLength,
    /// There is no pending entry to commit.
    NothingPending,
    /// The certificate does not attest to the pending entries as they are.
    CertificateMismatch,
    /// No committed block has the index asked for.
    NotFound,
}

} // verus!
