//! Commit layer of a DAG-based BFT consensus protocol.
//!
//! Nodes exchange round-numbered batch certificates; this library tracks the
//! leader certificate for each even round and orders anchors into a
//! deterministic commit sequence over the certificate DAG.

use vstd::prelude::*;

pub mod bft;
pub mod certificate;
pub mod committee;
pub mod dag;
pub mod errors;
pub mod storage;
pub mod tasks;

verus! {

/// Whether a round is even. Rounds are monotonically increasing DAG layer
/// indices; leader determination and commit attempts happen only on even
/// rounds.
pub open spec fn is_even(round: u64) -> bool {
    round % 2 == 0
}

/// The round immediately before `round`, saturating at zero.
pub open spec fn spec_previous_round(round: u64) -> u64 {
    if round == 0 {
        0
    } else {
        (round - 1) as u64
    }
}

/// Computes the previous round with saturating subtraction, so round zero
/// maps to itself rather than underflowing.
pub fn previous_round(round: u64) -> (r: u64)
    ensures
        r == spec_previous_round(round),
{
    if round == 0 {
        0
    } else {
        round - 1
    }
}

} // verus!
