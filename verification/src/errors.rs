//! The error kinds the synchronization engine reports.

use vstd::prelude::*;

verus! {

/// What can go wrong during a reconciliation pass.
#[derive(Clone, Copy, Debug, PartialEq, Eq, Structural)]
pub enum SyncError {
    /// Fetching the listing or a post page over the network failed.
    NetworkFailure,
    /// The expected comment markup was absent from a fetched page.
    ContentNotFound,
    /// A delete, send or fetch against the chat platform failed.
    PlatformApiFailure,
}

} // verus!
