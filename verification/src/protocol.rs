//! Stances, decisions and errors of the Snapper unlocking layer.
use vstd::prelude::*;

use crate::keys::{AuthorityIndex, Round, SnapperObjectKey, SnapperTransactionId};
use crate::order::same;

verus! {

/// A validator's current stance for one unresolved owned-object version.
#[derive(Clone, Copy, Debug, PartialEq, Eq)]
pub enum SnapperObjectStance {
    Transaction(SnapperTransactionId),
    Bottom,
}

/// A stance change recorded in a validator's block.
///
/// Absence of an entry means that the author's previous stance persists.
#[derive(Clone, Copy, Debug, PartialEq, Eq)]
pub struct SnapperObjectStanceVote {
    pub object: SnapperObjectKey,
    pub stance: SnapperObjectStance,
}

/// How a current Bottom stance is interpreted from the validator's history.
#[derive(Clone, Copy, Debug, PartialEq, Eq)]
pub enum SnapperBottomVoteKind {
    Skip,
    Unlock,
}

/// Final resolution of an owned-object version.
#[derive(Clone, Copy, Debug, PartialEq, Eq)]
pub enum SnapperObjectDecision {
    Commit(SnapperTransactionId),
    Release,
}

/// How a Snapper object resolution was reached.
///
/// Evaluation metadata only; it is not consumed by the protocol.
#[derive(Clone, Copy, Debug, PartialEq, Eq)]
pub enum SnapperResolutionPath {
    Fast,
    CommittedAnchor,
}

/// First local observation that an owned-object version has been resolved.
#[derive(Clone, Copy, Debug, PartialEq, Eq)]
pub struct SnapperResolutionObservation {
    pub decision: SnapperObjectDecision,
    pub path: SnapperResolutionPath,
    pub round: Round,
    pub timestamp_ms: u64,
}

/// Why a change of the Snapper state was refused.
#[derive(Clone, Debug, PartialEq, Eq)]
pub enum SnapperStateError {
    IllegalStanceTransition {
        authority: AuthorityIndex,
        object: SnapperObjectKey,
        from: SnapperObjectStance,
        to: SnapperObjectStance,
    },
    UnknownTransaction(SnapperTransactionId),
    ConflictingDecision {
        object: SnapperObjectKey,
        existing: SnapperObjectDecision,
        new: SnapperObjectDecision,
    },
}

impl SnapperObjectStance {
    /// Whether two stances are equal.
    pub fn same_as(&self, other: &Self) -> (r: bool)
        ensures
            r == (*self == *other),
    {
        match (self, other) {
            (SnapperObjectStance::Transaction(a), SnapperObjectStance::Transaction(b)) => same(
                a,
                b,
            ),
            (SnapperObjectStance::Bottom, SnapperObjectStance::Bottom) => true,
            _ => false,
        }
    }
}

impl SnapperObjectDecision {
    /// Whether two decisions are equal.
    pub fn same_as(&self, other: &Self) -> (r: bool)
        ensures
            r == (*self == *other),
    {
        match (self, other) {
            (SnapperObjectDecision::Commit(a), SnapperObjectDecision::Commit(b)) => same(a, b),
            (SnapperObjectDecision::Release, SnapperObjectDecision::Release) => true,
            _ => false,
        }
    }
}

} // verus!
