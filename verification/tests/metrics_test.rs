use mini_redis::acceptor::{on_accept, AcceptAction, AcceptFailure, AcceptOutcome};
use mini_redis::metrics::Metrics;

#[test]
fn counters_start_at_zero_and_count() {
    let mut metrics = Metrics::default();
    assert_eq!(metrics.total_requests(), 0);
    assert_eq!(metrics.active_connections(), 0);
    metrics.inc_total_requests();
    metrics.inc_total_requests();
    metrics.inc_cache_hits();
    metrics.inc_cache_misses();
    metrics.inc_parse_failures();
    assert_eq!(metrics.total_requests(), 2);
    metrics.inc_active_connections();
    assert_eq!(metrics.active_connections(), 1);
    metrics.dec_active_connections();
    assert_eq!(metrics.active_connections(), 0);
}

#[test]
fn closing_without_opening_wraps_like_an_atomic() {
    let mut metrics = Metrics::new();
    metrics.dec_active_connections();
    assert_eq!(metrics.active_connections(), usize::MAX);
    metrics.inc_active_connections();
    assert_eq!(metrics.active_connections(), 0);
}

#[test]
fn accept_outcomes() {
    let mut metrics = Metrics::new();
    assert_eq!(on_accept(&mut metrics, AcceptOutcome::Accepted), AcceptAction::Serve);
    assert_eq!(
        on_accept(&mut metrics, AcceptOutcome::Failed(AcceptFailure::ConnectionReset)),
        AcceptAction::Retry
    );
    assert_eq!(
        on_accept(&mut metrics, AcceptOutcome::Failed(AcceptFailure::ConnectionAborted)),
        AcceptAction::Retry
    );
    assert_eq!(
        on_accept(&mut metrics, AcceptOutcome::Failed(AcceptFailure::Other)),
        AcceptAction::RetryAfterDelay
    );
    assert_eq!(on_accept(&mut metrics, AcceptOutcome::Shutdown), AcceptAction::Stop);
}

#[test]
fn a_connection_with_requests_leaves_the_open_count() {
    let mut metrics = Metrics::new();
    metrics.inc_active_connections();
    metrics.inc_active_connections();
    for _ in 0..137 {
        metrics.inc_total_requests();
    }
    metrics.dec_active_connections();
    assert_eq!(metrics.active_connections(), 1);
    assert_eq!(metrics.total_requests(), 137);
}
