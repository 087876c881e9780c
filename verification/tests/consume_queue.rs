use rocketmq_store::consume_queue::ConsumeQueue;
use rocketmq_store::consume_queue::ConsumeQueueEntry;
use rocketmq_store::consume_queue::DispatchOutcome;
use rocketmq_store::consume_queue::CQ_ENTRY_SIZE;
use rocketmq_store::error::StoreError;
use rocketmq_store::queue_store::ConsumeQueueStore;

#[test]
fn entry_is_twenty_bytes_big_endian() {
    let entry = ConsumeQueueEntry { physical_offset: 0x0102, size: 0x0304, tag_hash_code: -1 };
    let bytes = entry.encode();
    assert_eq!(bytes.len(), CQ_ENTRY_SIZE);
    assert_eq!(
        bytes,
        vec![0, 0, 0, 0, 0, 0, 1, 2, 0, 0, 3, 4, 255, 255, 255, 255, 255, 255, 255, 255]
    );
    assert_eq!(ConsumeQueueEntry::decode(&bytes, 0), Some(entry));
    assert_eq!(ConsumeQueueEntry::decode(&bytes, 1), None);
    assert_eq!(ConsumeQueueEntry::decode(&bytes[..19], 0), None);
    let mut two = vec![0xAA; 3];
    two.extend_from_slice(&bytes);
    assert_eq!(ConsumeQueueEntry::decode(&two, 3), Some(entry));
}

#[test]
fn dispatch_appends_in_logical_order() {
    let mut queue = ConsumeQueue::new(7);
    assert_eq!(queue.queue_id(), 7);
    assert_eq!(queue.min_offset(), 0);
    assert_eq!(queue.max_offset(), 0);
    assert_eq!(queue.dispatch(0, 100, 1), Ok(DispatchOutcome::Appended(0)));
    assert_eq!(queue.dispatch(100, 50, 2), Ok(DispatchOutcome::Appended(1)));
    assert_eq!(queue.dispatch(400, 10, 3), Ok(DispatchOutcome::Appended(2)));
    assert_eq!(queue.max_offset(), 3);
    assert_eq!(queue.max_physical_offset(), 410);
    assert_eq!(
        queue.get_entry(1),
        Ok(ConsumeQueueEntry { physical_offset: 100, size: 50, tag_hash_code: 2 })
    );
    assert_eq!(queue.get_entry(3), Err(StoreError::OffsetOutOfRange));
}

#[test]
fn dispatch_twice_is_dispatch_once() {
    let mut queue = ConsumeQueue::new(7);
    queue.dispatch(0, 100, 1).unwrap();
    queue.dispatch(100, 50, 2).unwrap();
    assert_eq!(queue.dispatch(100, 50, 2), Ok(DispatchOutcome::Repeated));
    assert_eq!(queue.dispatch(0, 100, 1), Ok(DispatchOutcome::Repeated));
    assert_eq!(queue.max_offset(), 2);
    assert_eq!(queue.max_physical_offset(), 150);
}

#[test]
fn dispatch_turns_away_what_cannot_be_an_entry() {
    let mut queue = ConsumeQueue::new(7);
    queue.dispatch(0, 100, 1).unwrap();
    assert_eq!(queue.dispatch(100, 0, 1), Err(StoreError::OffsetOutOfRange));
    assert_eq!(queue.dispatch(50, 100, 1), Err(StoreError::OffsetOutOfRange));
    assert_eq!(queue.dispatch(u64::MAX, 1, 1), Err(StoreError::OffsetOutOfRange));
    assert_eq!(queue.dispatch(u64::MAX - 1, 1, 1), Ok(DispatchOutcome::Appended(1)));
    assert_eq!(queue.max_offset(), 2);
}

#[test]
fn expired_entries_leave_from_the_front() {
    let mut queue = ConsumeQueue::new(1);
    for i in 0..5u64 {
        queue.dispatch(i * 100, 100, 0).unwrap();
    }
    assert_eq!(queue.delete_expired(250), 3);
    assert_eq!(queue.min_offset(), 3);
    assert_eq!(queue.max_offset(), 5);
    assert_eq!(queue.get_entry(2), Err(StoreError::OffsetOutOfRange));
    assert_eq!(queue.get_entry(3).unwrap().physical_offset, 300);
    assert_eq!(queue.delete_expired(250), 0);
    assert_eq!(queue.delete_expired(10_000), 2);
    assert_eq!(queue.min_offset(), 5);
    assert_eq!(queue.max_offset(), 5);
    assert_eq!(queue.dispatch(500, 10, 0), Ok(DispatchOutcome::Appended(5)));
}

#[test]
fn correct_min_offset_realigns_and_is_idempotent() {
    let mut queue = ConsumeQueue::new(1);
    for i in 0..5u64 {
        queue.dispatch(i * 100, 100, 0).unwrap();
    }
    assert_eq!(queue.correct_min_offset(200), 2);
    assert_eq!(queue.correct_min_offset(200), 2);
    assert_eq!(queue.min_offset(), 2);
    assert_eq!(queue.get_entry(1), Err(StoreError::OffsetOutOfRange));
    assert_eq!(queue.get_entry(2).unwrap().physical_offset, 200);
    assert_eq!(queue.correct_min_offset(201), 3);
    assert_eq!(queue.correct_min_offset(0), 0);
    assert_eq!(queue.correct_min_offset(9999), 5);
    assert_eq!(queue.max_offset(), 5);
}

#[test]
fn truncate_drops_entries_beyond_an_offset() {
    let mut queue = ConsumeQueue::new(1);
    for i in 0..5u64 {
        queue.dispatch(i * 100, 100, 0).unwrap();
    }
    assert_eq!(queue.truncate(350), 2);
    assert_eq!(queue.max_offset(), 3);
    assert_eq!(queue.max_physical_offset(), 300);
    assert_eq!(queue.truncate(350), 0);
    assert_eq!(queue.dispatch(300, 100, 0), Ok(DispatchOutcome::Appended(3)));
    assert_eq!(queue.truncate(0), 4);
    assert_eq!(queue.max_offset(), 0);
    assert_eq!(queue.max_physical_offset(), 0);
}

#[test]
fn queue_starts_where_it_is_told() {
    let mut queue = ConsumeQueue::starting_at(3, 10, 5000).unwrap();
    assert_eq!(queue.min_offset(), 10);
    assert_eq!(queue.max_offset(), 10);
    assert_eq!(queue.dispatch(4000, 100, 0), Ok(DispatchOutcome::Repeated));
    assert_eq!(queue.dispatch(5000, 100, 0), Ok(DispatchOutcome::Appended(10)));
    assert_eq!(queue.get_entry(10).unwrap().physical_offset, 5000);
    assert_eq!(queue.get_entry(9), Err(StoreError::OffsetOutOfRange));
    assert!(ConsumeQueue::starting_at(3, 11, 10).is_none());
    assert!(ConsumeQueue::starting_at(3, 10, 10).is_some());
}

#[test]
fn queues_are_found_by_id() {
    let mut queues = ConsumeQueueStore::new();
    assert_eq!(queues.queue_count(), 0);
    assert!(!queues.has_queue(1));
    assert_eq!(queues.max_offset(1), 0);
    assert_eq!(queues.get_entry(1, 0), Err(StoreError::OffsetOutOfRange));
    assert_eq!(queues.dispatch(0, 100, 5, 1), Ok(DispatchOutcome::Appended(0)));
    assert_eq!(queues.dispatch(100, 100, 6, 2), Ok(DispatchOutcome::Appended(0)));
    assert_eq!(queues.dispatch(200, 100, 7, 1), Ok(DispatchOutcome::Appended(1)));
    assert_eq!(queues.dispatch(200, 100, 7, 1), Ok(DispatchOutcome::Repeated));
    assert_eq!(queues.dispatch(0, 0, 7, 9), Err(StoreError::OffsetOutOfRange));
    assert!(!queues.has_queue(9));
    assert_eq!(queues.queue_count(), 2);
    assert_eq!(queues.queue_id_at(0), 1);
    assert_eq!(queues.queue_id_at(1), 2);
    assert_eq!(queues.max_offset(1), 2);
    assert_eq!(queues.max_offset(2), 1);
    assert_eq!(queues.min_offset(1), 0);
    assert_eq!(queues.last_dispatched_offset(), 300);
    assert_eq!(
        queues.get_entry(1, 1),
        Ok(ConsumeQueueEntry { physical_offset: 200, size: 100, tag_hash_code: 7 })
    );
    assert_eq!(queues.get_entry(2, 1), Err(StoreError::OffsetOutOfRange));
}

#[test]
fn all_queues_expire_correct_and_truncate_together() {
    let mut queues = ConsumeQueueStore::new();
    queues.dispatch(0, 100, 0, 1).unwrap();
    queues.dispatch(100, 100, 0, 2).unwrap();
    queues.dispatch(200, 100, 0, 1).unwrap();
    queues.dispatch(300, 100, 0, 2).unwrap();
    queues.correct_min_offset(150);
    assert_eq!(queues.min_offset(1), 1);
    assert_eq!(queues.min_offset(2), 1);
    queues.correct_min_offset(50);
    assert_eq!(queues.min_offset(1), 1);
    assert_eq!(queues.min_offset(2), 0);
    queues.delete_expired(150);
    assert_eq!(queues.get_entry(1, 0), Err(StoreError::OffsetOutOfRange));
    assert_eq!(queues.get_entry(1, 1).unwrap().physical_offset, 200);
    queues.truncate(300);
    assert_eq!(queues.max_offset(1), 2);
    assert_eq!(queues.max_offset(2), 1);
    assert!(!queues.open_queue(1, 0, 0));
    assert!(!queues.open_queue(5, 10, 9));
    assert!(queues.open_queue(5, 10, 1000));
    assert_eq!(queues.max_offset(5), 10);
}
