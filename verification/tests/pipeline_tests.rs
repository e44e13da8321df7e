use grid_mirror::pipeline::{backoff, IngestionPipeline, Step, StreamState};
use grid_mirror::record::MirrorError;

fn applies(step: Step<&'static str>, block: i64, what: &str) -> bool {
    matches!(step, Step::Apply { block_number, delivery } if block_number == block && delivery == what)
}

#[test]
fn backoff_doubles_up_to_the_longest_delay() {
    assert_eq!(backoff(100, 1000, 0), 100);
    assert_eq!(backoff(100, 1000, 1), 100);
    assert_eq!(backoff(100, 1000, 2), 200);
    assert_eq!(backoff(100, 1000, 3), 400);
    assert_eq!(backoff(100, 1000, 4), 800);
    assert_eq!(backoff(100, 1000, 5), 1000);
    assert_eq!(backoff(100, 1000, 4_000_000_000), 1000);
    assert_eq!(backoff(5000, 1000, 1), 1000);
    assert_eq!(backoff(0, 1000, 7), 0);
    assert_eq!(backoff(u64::MAX / 2 + 1, u64::MAX, 2), u64::MAX);
    assert_eq!(backoff(1, 0, 3), 0);
}

#[test]
fn the_next_block_is_handed_out_and_moves_the_watermark() {
    let mut p: IngestionPipeline<&'static str> = IngestionPipeline::new(10, 4, 3, 100, 1000);
    assert_eq!(p.state(), StreamState::Syncing);
    assert_eq!(p.watermark(), 10);
    assert!(applies(p.deliver(11, "eleven"), 11, "eleven"));
    assert_eq!(p.in_flight(), Some(11));
    assert_eq!(p.watermark(), 10);
    assert!(matches!(p.applied(), Step::Idle));
    assert_eq!(p.watermark(), 11);
    assert_eq!(p.in_flight(), None);
    assert_eq!(p.state(), StreamState::CaughtUp);
    assert!(applies(p.deliver(12, "twelve"), 12, "twelve"));
    assert_eq!(p.state(), StreamState::Syncing);
}

#[test]
fn early_blocks_wait_and_follow_in_order() {
    let mut p: IngestionPipeline<&'static str> = IngestionPipeline::new(10, 4, 3, 100, 1000);
    assert!(matches!(p.deliver(13, "c"), Step::Buffered));
    assert!(matches!(p.deliver(12, "b"), Step::Buffered));
    assert!(matches!(p.deliver(13, "again"), Step::Refused { delivery: "again" }));
    assert!(matches!(p.deliver(15, "e"), Step::Buffered));
    assert_eq!(p.waiting_count(), 3);
    assert_eq!(p.state(), StreamState::Syncing);
    assert!(applies(p.deliver(11, "a"), 11, "a"));
    assert!(matches!(p.deliver(11, "busy"), Step::Refused { delivery: "busy" }));
    assert!(applies(p.applied(), 12, "b"));
    assert!(applies(p.applied(), 13, "c"));
    assert!(matches!(p.applied(), Step::Idle));
    assert_eq!(p.watermark(), 13);
    assert_eq!(p.waiting_count(), 1);
    assert_eq!(p.state(), StreamState::Syncing);
    assert!(applies(p.deliver(14, "d"), 14, "d"));
    assert!(applies(p.applied(), 15, "e"));
    assert!(matches!(p.applied(), Step::Idle));
    assert_eq!(p.watermark(), 15);
    assert_eq!(p.state(), StreamState::CaughtUp);
}

#[test]
fn a_gap_beyond_the_window_stalls_the_stream() {
    let mut p: IngestionPipeline<&'static str> = IngestionPipeline::new(10, 4, 3, 100, 1000);
    assert!(matches!(p.deliver(15, "edge"), Step::Buffered));
    assert!(matches!(p.deliver(16, "gap"), Step::Stalled));
    assert_eq!(p.state(), StreamState::Stalled);
    assert!(matches!(p.deliver(11, "late"), Step::Refused { delivery: "late" }));
    assert!(matches!(p.fork_detected(5), Step::Stalled));
    assert_eq!(p.watermark(), 10);
}

#[test]
fn a_window_of_nothing_takes_only_the_next_block() {
    let mut p: IngestionPipeline<&'static str> = IngestionPipeline::new(0, 0, 3, 100, 1000);
    assert!(applies(p.deliver(1, "one"), 1, "one"));
    assert!(matches!(p.applied(), Step::Idle));
    assert!(matches!(p.deliver(3, "three"), Step::Stalled));
}

#[test]
fn a_block_that_was_applied_before_is_applied_again_and_moves_nothing() {
    let mut p: IngestionPipeline<&'static str> = IngestionPipeline::new(10, 4, 3, 100, 1000);
    assert!(applies(p.deliver(7, "old"), 7, "old"));
    assert!(matches!(p.applied(), Step::Idle));
    assert_eq!(p.watermark(), 10);
    assert!(applies(p.deliver(10, "last"), 10, "last"));
    assert!(matches!(p.failed(MirrorError::StaleUpdate), Step::Idle));
    assert_eq!(p.watermark(), 10);
}

#[test]
fn storage_failures_are_retried_until_the_limit() {
    let mut p: IngestionPipeline<&'static str> = IngestionPipeline::new(0, 4, 3, 100, 1000);
    assert!(applies(p.deliver(1, "one"), 1, "one"));
    assert!(matches!(
        p.failed(MirrorError::StorageUnavailable),
        Step::RetryAfter { block_number: 1, delay_ms: 100 }
    ));
    assert!(matches!(
        p.failed(MirrorError::StorageUnavailable),
        Step::RetryAfter { block_number: 1, delay_ms: 200 }
    ));
    assert_eq!(p.in_flight(), Some(1));
    assert!(matches!(p.failed(MirrorError::StorageUnavailable), Step::Stalled));
    assert_eq!(p.state(), StreamState::Stalled);
    assert_eq!(p.in_flight(), None);
    assert_eq!(p.watermark(), 0);
}

#[test]
fn a_success_forgets_the_failures() {
    let mut p: IngestionPipeline<&'static str> = IngestionPipeline::new(0, 4, 3, 100, 1000);
    assert!(applies(p.deliver(1, "one"), 1, "one"));
    assert!(matches!(p.failed(MirrorError::StorageUnavailable), Step::RetryAfter { .. }));
    assert!(matches!(p.failed(MirrorError::StorageUnavailable), Step::RetryAfter { .. }));
    assert!(matches!(p.applied(), Step::Idle));
    assert!(applies(p.deliver(2, "two"), 2, "two"));
    assert!(matches!(
        p.failed(MirrorError::StorageUnavailable),
        Step::RetryAfter { block_number: 2, delay_ms: 100 }
    ));
}

#[test]
fn an_error_that_no_retry_mends_stalls_at_once() {
    for error in [MirrorError::Conflict, MirrorError::InvalidRange, MirrorError::NotFound] {
        let mut p: IngestionPipeline<&'static str> = IngestionPipeline::new(0, 4, 3, 100, 1000);
        assert!(applies(p.deliver(1, "one"), 1, "one"));
        assert!(matches!(p.failed(error), Step::Stalled));
        assert_eq!(p.state(), StreamState::Stalled);
        assert_eq!(p.watermark(), 0);
    }
}

#[test]
fn reports_without_a_block_in_hand_do_nothing() {
    let mut p: IngestionPipeline<&'static str> = IngestionPipeline::new(0, 4, 3, 100, 1000);
    assert!(matches!(p.applied(), Step::Idle));
    assert!(matches!(p.failed(MirrorError::Conflict), Step::Idle));
    assert!(matches!(p.rolled_back(), Step::Idle));
    assert_eq!(p.state(), StreamState::Syncing);
    assert_eq!(p.watermark(), 0);
}

#[test]
fn a_fork_is_rolled_back_before_anything_else() {
    let mut p: IngestionPipeline<&'static str> = IngestionPipeline::new(10, 8, 3, 100, 1000);
    assert!(matches!(p.deliver(13, "c"), Step::Buffered));
    assert!(matches!(p.deliver(18, "h"), Step::Buffered));
    assert!(applies(p.deliver(11, "a"), 11, "a"));
    assert!(matches!(p.fork_detected(15), Step::Rollback { to_block: 15 }));
    assert_eq!(p.state(), StreamState::RollingBack);
    assert_eq!(p.in_flight(), None);
    assert_eq!(p.waiting_count(), 1);
    assert!(matches!(p.deliver(11, "a"), Step::Refused { delivery: "a" }));
    assert!(matches!(p.rolled_back(), Step::Idle));
    assert_eq!(p.state(), StreamState::Syncing);
    assert_eq!(p.watermark(), 10);
    assert!(applies(p.deliver(11, "a"), 11, "a"));
}

#[test]
fn a_fork_below_the_watermark_takes_the_watermark_back() {
    let mut p: IngestionPipeline<&'static str> = IngestionPipeline::new(10, 8, 3, 100, 1000);
    assert!(matches!(p.deliver(13, "c"), Step::Buffered));
    assert!(matches!(p.fork_detected(6), Step::Rollback { to_block: 6 }));
    assert_eq!(p.waiting_count(), 0);
    assert!(matches!(p.rolled_back(), Step::Idle));
    assert_eq!(p.watermark(), 5);
    assert!(applies(p.deliver(6, "six"), 6, "six"));
    let mut q: IngestionPipeline<&'static str> = IngestionPipeline::new(10, 8, 3, 100, 1000);
    assert!(matches!(q.fork_detected(i64::MIN), Step::Rollback { .. }));
    assert!(matches!(q.rolled_back(), Step::Idle));
    assert_eq!(q.watermark(), i64::MIN);
}

#[test]
fn a_shutdown_waits_for_the_block_in_hand() {
    let mut p: IngestionPipeline<&'static str> = IngestionPipeline::new(0, 4, 3, 100, 1000);
    assert!(matches!(p.deliver(2, "two"), Step::Buffered));
    assert!(applies(p.deliver(1, "one"), 1, "one"));
    assert!(matches!(p.request_shutdown(), Step::Idle));
    assert!(matches!(p.deliver(3, "three"), Step::Refused { delivery: "three" }));
    assert!(matches!(p.applied(), Step::Stopped));
    assert_eq!(p.state(), StreamState::Stopped);
    assert_eq!(p.watermark(), 1);
    assert!(matches!(p.deliver(2, "two"), Step::Refused { .. }));
    assert!(matches!(p.fork_detected(1), Step::Stopped));
    assert!(matches!(p.request_shutdown(), Step::Stopped));
}

#[test]
fn a_shutdown_with_nothing_in_hand_stops_at_once() {
    let mut p: IngestionPipeline<&'static str> = IngestionPipeline::new(0, 4, 3, 100, 1000);
    assert!(matches!(p.request_shutdown(), Step::Stopped));
    assert_eq!(p.state(), StreamState::Stopped);
    let mut q: IngestionPipeline<&'static str> = IngestionPipeline::new(0, 4, 3, 100, 1000);
    assert!(matches!(q.fork_detected(0), Step::Rollback { to_block: 0 }));
    assert!(matches!(q.request_shutdown(), Step::Idle));
    assert!(matches!(q.rolled_back(), Step::Stopped));
    assert_eq!(q.watermark(), -1);
}
