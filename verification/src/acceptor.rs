use crate::metrics::{bump, Metrics, MetricsCounts};
use vstd::prelude::*;

verus! {

/// Why a connection could not be accepted.
#[derive(Debug, Clone, Copy, PartialEq, Eq)]
pub enum AcceptFailure {
    /// The peer gave up before the connection was accepted.
    ConnectionAborted,
    /// The peer reset the connection before it was accepted.
    ConnectionReset,
    /// Any other failure, such as running out of a system resource.
    Other,
}

/// What the accepting loop learned while waiting.
#[derive(Debug, Clone, Copy, PartialEq, Eq)]
pub enum AcceptOutcome {
    /// A connection arrived.
    Accepted,
    /// Accepting failed.
    Failed(AcceptFailure),
    /// The server is shutting down.
    Shutdown,
}

/// What the accepting loop does next.
#[derive(Debug, Clone, Copy, PartialEq, Eq)]
pub enum AcceptAction {
    /// Serve the new connection in a task of its own, then keep accepting.
    Serve,
    /// Keep accepting at once.
    Retry,
    /// Log the failure, wait `ACCEPT_RETRY_DELAY`, then keep accepting.
    RetryAfterDelay,
    /// Stop accepting.
    Stop,
}

/// Decides what the accepting loop does after an outcome: a failure is
/// counted as a rejected connection, and only a failure caused by the peer
/// is retried at once.
pub fn on_accept(metrics: &mut Metrics, outcome: AcceptOutcome) -> (action: AcceptAction)
    ensures
        match outcome {
            AcceptOutcome::Accepted => action == AcceptAction::Serve && final(metrics)@ == old(metrics)@,
            AcceptOutcome::Failed(failure) => {
                &&& final(metrics)@ == (MetricsCounts {
                    rejected_connections: bump(old(metrics)@.rejected_connections),
                    ..old(metrics)@
                })
                &&& action == (match failure {
                    AcceptFailure::Other => AcceptAction::RetryAfterDelay,
                    _ => AcceptAction::Retry,
                })
            },
            AcceptOutcome::Shutdown => action == AcceptAction::Stop && final(metrics)@ == old(metrics)@,
        },
{
    match outcome {
        AcceptOutcome::Accepted => AcceptAction::Serve,
        AcceptOutcome::Failed(failure) => {
            metrics.inc_rejected_connections();
            match failure {
                AcceptFailure::ConnectionAborted | AcceptFailure::ConnectionReset => AcceptAction::Retry,
                AcceptFailure::Other => AcceptAction::RetryAfterDelay,
            }
        },
        AcceptOutcome::Shutdown => AcceptAction::Stop,
    }
}

} // verus!
