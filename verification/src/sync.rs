//! The reconciliation step: the decision core of the dispatch loop that
//! merges locally observed mutations and remotely received snapshots. The
//! observed event's snapshot always becomes current (last write wins); the
//! role decides which side effect the caller must then drive.

use vstd::prelude::*;
use crate::model::Model;

verus! {

/// Which side of the pair this process plays.
pub enum Role {
    /// Seeds the initial content and pushes every local mutation to the peer.
    Originating,
    /// Receives snapshots and materializes them to its filesystem.
    Mirroring,
}

/// One input the reconciliation loop can observe: a snapshot produced by the
/// local event normalizer, or one decoded from the peer.
pub enum SyncEvent {
    LocalMutation(Model),
    RemoteSnapshot(Model),
}

/// The side effect the caller must drive after a step: push the new current
/// snapshot to the peer, materialize it to the workspace, or nothing.
pub enum SyncAction {
    PushOutbound,
    WriteWorkspace,
    NoEffect,
}

/// One reconciliation step. Whatever arrives replaces the held snapshot; no
/// ordering is promised between a local mutation and a concurrently arriving
/// remote snapshot. The originating role pushes local mutations outbound and
/// never writes received state back to disk; the mirroring role materializes
/// received state and never retransmits local edits.
pub fn reconcile_step(role: &Role, event: SyncEvent) -> (r: (Model, SyncAction))
    ensures
        match event {
            SyncEvent::LocalMutation(m) => r.0 == m && (match role {
                Role::Originating => r.1 is PushOutbound,
                Role::Mirroring => r.1 is NoEffect,
            }),
            SyncEvent::RemoteSnapshot(m) => r.0 == m && (match role {
                Role::Originating => r.1 is NoEffect,
                Role::Mirroring => r.1 is WriteWorkspace,
            }),
        },
{
    match event {
        SyncEvent::LocalMutation(m) => {
            match role {
                Role::Originating => (m, SyncAction::PushOutbound),
                Role::Mirroring => (m, SyncAction::NoEffect),
            }
        },
        SyncEvent::RemoteSnapshot(m) => {
            match role {
                Role::Originating => (m, SyncAction::NoEffect),
                Role::Mirroring => (m, SyncAction::WriteWorkspace),
            }
        },
    }
}

} // verus!
