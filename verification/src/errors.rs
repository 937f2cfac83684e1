//! Errors surfaced by the consensus core.
//!
//! Configuration faults (a missing committee) are hard errors; transient
//! conditions (no certificates yet for a round) are modeled as empty or
//! `None` results, never as errors.

use vstd::prelude::*;

verus! {

/// A fault reported by a fallible operation of this library.
#[derive(Clone, Copy, PartialEq, Eq, Structural, Debug)]
pub enum BftError {
    /// No committee snapshot is registered for the round being decided: a
    /// configuration or bootstrap fault of the node.
    MissingCommittee,
    /// A certificate for the same `(author, round)` pair is already admitted.
    DuplicateCertificate,
    /// A committee snapshot for that round is already registered.
    DuplicateCommittee,
    /// The instance was asked to start while already running.
    AlreadyRunning,
}

} // verus!
