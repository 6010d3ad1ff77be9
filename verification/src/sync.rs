//! The vocabulary of album sync that the rest of the core shares: which way
//! an album travels and how much of it does.

use vstd::prelude::*;

verus! {

/// Which way a subscribed album travels.
#[derive(Debug, Clone, Copy, PartialEq, Eq, Structural)]
pub enum SyncDirection {
    /// This machine only contributes.
    Push,
    /// This machine only adopts.
    Pull,
    /// Both ways.
    Both,
}

/// How much of an album a sync moves.
#[derive(Debug, Clone, Copy, PartialEq, Eq, Structural)]
pub enum SyncScopeKind {
    /// The published tree: what the gallery shows.
    Web,
    /// The published tree plus every original and the catalog's metadata.
    Full,
}

/// What a sync plan says to do with one path.
#[derive(Debug, Clone, Copy, PartialEq, Eq, Structural)]
pub enum Action {
    /// Send this machine's copy to the remote.
    Push,
    /// Take the remote's copy.
    Pull,
    /// Remove the remote's copy.
    DeleteRemote,
    /// Both sides changed since the baseline.
    Conflict,
    /// A difference this direction does not act on.
    LeaveAlone,
    /// Nothing to do.
    Skip,
    /// Nothing to move, but the baseline is out of date.
    ForgetState,
}

} // verus!
