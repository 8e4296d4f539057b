//! Errors surfaced by block ingestion and signature recovery.

use vstd::prelude::*;

verus! {

/// Why a candidate block or a signature was not accepted.
///
/// `Duplicate` means the block is already admitted. `FutureHeight`,
/// `FutureTime` and `MissParent` are soft: the block was parked in the
/// matching future bucket and will be replayed. `Malformed` is a permanent
/// rejection. `InvalidSignature` is returned when a sender's public key
/// cannot be recovered from a transaction signature.
#[derive(Clone, Copy, Debug, PartialEq, Eq, Structural)]
pub enum Error {
    Duplicate,
    FutureHeight,
    FutureTime,
    MissParent,
    Malformed,
    InvalidSignature,
}

} // verus!
