//! Decisions of the engine worker: lead, keep the lease, serve the order queue.
use vstd::prelude::*;

verus! {

/// Seconds the leader lock lives without a refresh.
pub const LEADER_TTL_SECS: i64 = 30;

/// Seconds between refreshes of the leader lock.
pub const LEADER_REFRESH_SECS: u64 = 10;

/// Milliseconds a candidate waits after a failed attempt to lead.
pub const RETRY_LEAD_MILLIS: u64 = 5000;

/// Milliseconds the leader waits when the order queue is empty.
pub const EMPTY_QUEUE_MILLIS: u64 = 50;

/// Price levels per side in the published snapshot.
pub const SNAPSHOT_DEPTH: usize = 20;

/// Whether the worker holds the leader lock.
#[derive(Debug, Clone, Copy, PartialEq, Eq, Structural)]
pub enum WorkerRole {
    Candidate,
    Leader,
}

/// What the worker learnt from its last action.
#[derive(Debug, Clone, Copy, PartialEq, Eq, Structural)]
pub enum WorkerEvent {
    /// Nothing pending: the worker is at the top of its loop.
    Idle,
    /// The attempt to take the leader lock ended; `true` when it was taken.
    LeadAttempted(bool),
    /// Seconds since the leader lock was last taken or refreshed.
    LeaseAge(u64),
    /// The lock refresh ended; `true` when the lock is still ours.
    LeaseRefreshed(bool),
    /// The pop from the order queue ended; `true` when an order came.
    Popped(bool),
}

/// What the worker does next.
#[derive(Debug, Clone, Copy, PartialEq, Eq, Structural)]
pub enum WorkerAction {
    /// Try to take the leader lock.
    TryLead,
    /// Wait this many milliseconds, then go back to the top of the loop.
    Sleep(u64),
    /// Start leading with an empty book and a fresh lease clock.
    StartLeading,
    /// Measure the age of the lease.
    CheckLease,
    /// Refresh the leader lock.
    RefreshLease,
    /// Drop the book: another worker leads now.
    StepDown,
    /// Pop the next order from the queue.
    PopOrder,
    /// Match the popped order, then publish the fills and the snapshot.
    ProcessOrder,
}

/// The role and action that follow an event.
pub open spec fn next_step(role: WorkerRole, event: WorkerEvent) -> (WorkerRole, WorkerAction) {
    match role {
        WorkerRole::Candidate => match event {
            WorkerEvent::LeadAttempted(true) => (WorkerRole::Leader, WorkerAction::StartLeading),
            WorkerEvent::LeadAttempted(false) => (
                WorkerRole::Candidate,
                WorkerAction::Sleep(RETRY_LEAD_MILLIS),
            ),
            _ => (WorkerRole::Candidate, WorkerAction::TryLead),
        },
        WorkerRole::Leader => match event {
            WorkerEvent::LeaseAge(secs) => if secs >= LEADER_REFRESH_SECS {
                (WorkerRole::Leader, WorkerAction::RefreshLease)
            } else {
                (WorkerRole::Leader, WorkerAction::PopOrder)
            },
            WorkerEvent::LeaseRefreshed(true) => (WorkerRole::Leader, WorkerAction::PopOrder),
            WorkerEvent::LeaseRefreshed(false) => (WorkerRole::Candidate, WorkerAction::StepDown),
            WorkerEvent::Popped(true) => (WorkerRole::Leader, WorkerAction::ProcessOrder),
            WorkerEvent::Popped(false) => (
                WorkerRole::Leader,
                WorkerAction::Sleep(EMPTY_QUEUE_MILLIS),
            ),
            _ => (WorkerRole::Leader, WorkerAction::CheckLease),
        },
    }
}

/// Decide the worker's next role and action from its role and the last event.
pub fn worker_step(role: WorkerRole, event: WorkerEvent) -> (r: (WorkerRole, WorkerAction))
    ensures
        r == next_step(role, event),
        role == WorkerRole::Leader ==> match event {
            WorkerEvent::LeaseAge(secs) => r == if secs < LEADER_REFRESH_SECS {
                (WorkerRole::Leader, WorkerAction::PopOrder)
            } else {
                (WorkerRole::Leader, WorkerAction::RefreshLease)
            },
            WorkerEvent::LeaseRefreshed(ok) => r == if ok {
                (WorkerRole::Leader, WorkerAction::PopOrder)
            } else {
                (WorkerRole::Candidate, WorkerAction::StepDown)
            },
            _ => r.0 == WorkerRole::Leader,
        },
{
    match role {
        WorkerRole::Candidate => match event {
            WorkerEvent::LeadAttempted(true) => (WorkerRole::Leader, WorkerAction::StartLeading),
            WorkerEvent::LeadAttempted(false) => (
                WorkerRole::Candidate,
                WorkerAction::Sleep(RETRY_LEAD_MILLIS),
            ),
            _ => (WorkerRole::Candidate, WorkerAction::TryLead),
        },
        WorkerRole::Leader => match event {
            WorkerEvent::LeaseAge(secs) => {
                if secs >= LEADER_REFRESH_SECS {
                    (WorkerRole::Leader, WorkerAction::RefreshLease)
                } else {
                    (WorkerRole::Leader, WorkerAction::PopOrder)
                }
            },
            WorkerEvent::LeaseRefreshed(true) => (WorkerRole::Leader, WorkerAction::PopOrder),
            WorkerEvent::LeaseRefreshed(false) => (WorkerRole::Candidate, WorkerAction::StepDown),
            WorkerEvent::Popped(true) => (WorkerRole::Leader, WorkerAction::ProcessOrder),
            WorkerEvent::Popped(false) => (
                WorkerRole::Leader,
                WorkerAction::Sleep(EMPTY_QUEUE_MILLIS),
            ),
            _ => (WorkerRole::Leader, WorkerAction::CheckLease),
        },
    }
}

/// Single writer: a worker processes an order only while it leads, right after it popped
/// one; a candidate never touches the queue or the book; a failed lease refresh makes the
/// leader a candidate that drops its book; and a leader refreshes its lease as soon as the
/// lease is as old as the refresh period.
pub proof fn law_only_leader_processes(role: WorkerRole, event: WorkerEvent)
    ensures
        next_step(role, event).1 == WorkerAction::ProcessOrder ==> role == WorkerRole::Leader
            && event == WorkerEvent::Popped(true) && next_step(role, event).0 == WorkerRole::Leader,
        role == WorkerRole::Candidate ==> next_step(role, event).1 != WorkerAction::PopOrder
            && next_step(role, event).1 != WorkerAction::ProcessOrder,
        role == WorkerRole::Leader && event == WorkerEvent::LeaseRefreshed(false) ==> next_step(
            role,
            event,
        ) == (WorkerRole::Candidate, WorkerAction::StepDown),
        forall|secs: u64|
            secs >= LEADER_REFRESH_SECS ==> #[trigger] next_step(
                WorkerRole::Leader,
                WorkerEvent::LeaseAge(secs),
            ).1 == WorkerAction::RefreshLease,
        next_step(role, event).0 == WorkerRole::Leader ==> role == WorkerRole::Leader || event
            == WorkerEvent::LeadAttempted(true),
{
}

/// A leader keeps leading and serves the queue while its lease is younger than the refresh
/// period, and it gives up the lead only when a lease refresh fails.
pub proof fn law_leader_keeps_fresh_lease(role: WorkerRole, event: WorkerEvent)
    ensures
        forall|secs: u64|
            secs < LEADER_REFRESH_SECS ==> #[trigger] next_step(
                WorkerRole::Leader,
                WorkerEvent::LeaseAge(secs),
            ) == (WorkerRole::Leader, WorkerAction::PopOrder),
        role == WorkerRole::Leader && next_step(role, event).0 == WorkerRole::Candidate ==> event
            == WorkerEvent::LeaseRefreshed(false),
        role == WorkerRole::Leader && next_step(role, event).1 == WorkerAction::StepDown ==> event
            == WorkerEvent::LeaseRefreshed(false),
{
}

} // verus!
