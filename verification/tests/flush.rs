use rocketmq_store::error::StoreError;
use rocketmq_store::flush::is_page_cache_busy;
use rocketmq_store::flush::release;
use rocketmq_store::flush::wait_outcome;
use rocketmq_store::flush::FlushPolicy;
use rocketmq_store::flush::FlushScheduler;
use rocketmq_store::flush::GroupCommitRequest;
use rocketmq_store::flush::Health;
use rocketmq_store::flush::RoundPlan;
use rocketmq_store::flush::WaitStatus;

fn policy() -> FlushPolicy {
    FlushPolicy { interval_ms: 500, least_pages: 4, thorough_interval_ms: 10_000 }
}

#[test]
fn rounds_use_the_threshold_until_a_thorough_one_is_due() {
    let mut scheduler = FlushScheduler::new(policy(), 1_000, 3);
    assert_eq!(scheduler.on_tick(1_500), RoundPlan { least_pages: 4, next_round_ms: 2_000 });
    assert_eq!(scheduler.on_tick(10_999), RoundPlan { least_pages: 4, next_round_ms: 11_499 });
    assert_eq!(scheduler.on_tick(11_000), RoundPlan { least_pages: 0, next_round_ms: 11_500 });
    assert_eq!(scheduler.on_tick(11_500), RoundPlan { least_pages: 4, next_round_ms: 12_000 });
    assert_eq!(scheduler.on_tick(20_999), RoundPlan { least_pages: 4, next_round_ms: 21_499 });
    assert_eq!(scheduler.on_tick(21_000), RoundPlan { least_pages: 0, next_round_ms: 21_500 });
    assert_eq!(
        scheduler.on_tick(u64::MAX - 3),
        RoundPlan { least_pages: 0, next_round_ms: u64::MAX }
    );
}

#[test]
fn failed_rounds_degrade_and_a_good_one_heals() {
    let mut scheduler = FlushScheduler::new(policy(), 0, 3);
    assert_eq!(scheduler.health(), Health::Healthy);
    assert_eq!(scheduler.on_result(false), Health::Healthy);
    assert_eq!(scheduler.on_result(false), Health::Healthy);
    assert_eq!(scheduler.on_result(false), Health::Degraded);
    assert_eq!(scheduler.on_result(false), Health::Degraded);
    assert_eq!(scheduler.on_result(true), Health::Healthy);
    assert_eq!(scheduler.on_result(false), Health::Healthy);
    let mut never = FlushScheduler::new(policy(), 0, 0);
    for _ in 0..10 {
        assert_eq!(never.on_result(false), Health::Healthy);
    }
}

#[test]
fn a_request_is_done_timed_out_or_pending() {
    let request = GroupCommitRequest::new(9, 1_000, 24, 50, 200);
    assert_eq!(request, GroupCommitRequest { id: 9, next_offset: 1_024, deadline_ms: 250 });
    assert_eq!(request.status(1_023, 249), WaitStatus::Pending);
    assert_eq!(request.status(1_023, 250), WaitStatus::TimedOut);
    assert_eq!(request.status(1_024, 250), WaitStatus::Done);
    assert_eq!(request.status(1_024, 0), WaitStatus::Done);
    assert_eq!(GroupCommitRequest::new(1, 0, 0, u64::MAX, 5).deadline_ms, u64::MAX);
}

#[test]
fn a_timeout_is_a_soft_failure() {
    assert_eq!(wait_outcome(WaitStatus::Pending, StoreError::FlushTimeout), None);
    assert_eq!(wait_outcome(WaitStatus::Done, StoreError::FlushTimeout), Some(Ok(())));
    assert_eq!(
        wait_outcome(WaitStatus::TimedOut, StoreError::FlushTimeout),
        Some(Err(StoreError::FlushTimeout))
    );
    assert_eq!(
        wait_outcome(WaitStatus::TimedOut, StoreError::ReplicationTimeout),
        Some(Err(StoreError::ReplicationTimeout))
    );
}

#[test]
fn release_takes_out_what_has_ended_and_keeps_the_order() {
    let a = GroupCommitRequest { id: 1, next_offset: 100, deadline_ms: 50 };
    let b = GroupCommitRequest { id: 2, next_offset: 200, deadline_ms: 10 };
    let c = GroupCommitRequest { id: 3, next_offset: 300, deadline_ms: 50 };
    let d = GroupCommitRequest { id: 4, next_offset: 150, deadline_ms: 50 };
    let mut pending = vec![a, b, c, d];
    let released = release(&mut pending, 150, 20);
    assert_eq!(released, vec![a, b, d]);
    assert_eq!(pending, vec![c]);
    assert_eq!(b.status(150, 20), WaitStatus::TimedOut);
    assert!(release(&mut pending, 150, 20).is_empty());
    assert_eq!(release(&mut pending, 150, 50), vec![c]);
    assert!(pending.is_empty());
}

#[test]
fn append_point_is_busy_between_the_timeout_and_a_stale_mark() {
    assert!(!is_page_cache_busy(None, 5_000, 1_000));
    assert!(!is_page_cache_busy(Some(4_000), 5_000, 1_000));
    assert!(is_page_cache_busy(Some(3_999), 5_000, 1_000));
    assert!(!is_page_cache_busy(Some(6_000), 5_000, 1_000));
    assert!(is_page_cache_busy(Some(1), 10_000_000, 1_000));
    assert!(!is_page_cache_busy(Some(0), 10_000_000, 1_000));
}
