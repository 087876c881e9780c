use rocketmq_store::commit_log::CommitLog;
use rocketmq_store::config::MessageStoreConfig;
use rocketmq_store::consume_queue::read_entries;
use rocketmq_store::consume_queue::ConsumeQueue;
use rocketmq_store::consume_queue::ConsumeQueueEntry;
use rocketmq_store::error::StoreError;
use rocketmq_store::flush::GroupCommitRequest;
use rocketmq_store::flush::WaitStatus;
use rocketmq_store::ha::FrameHeader;
use rocketmq_store::record::encode_record;
use rocketmq_store::record::Message;
use rocketmq_store::record::RECORD_HEADER_SIZE;
use rocketmq_store::queue_store::ConsumeQueueStore;
use rocketmq_store::store::MessageStore;
use rocketmq_store::store::SavedQueue;

fn make(queue_id: u32, body: usize, fill: u8) -> Message {
    Message {
        queue_id,
        flag: 1,
        born_timestamp: 5,
        store_timestamp: 6,
        born_host: 7,
        tags_code: queue_id as i64 * 1000 + body as i64,
        properties: Vec::new(),
        body: vec![fill; body],
    }
}

fn images(store: &MessageStore) -> Vec<Vec<u8>> {
    let log = store.log();
    (0..log.segment_count()).map(|k| log.segment_image(k).to_vec()).collect()
}

#[test]
fn every_appended_record_reads_back() {
    let mut store = MessageStore::new(0, 512, 64, 512, false).unwrap();
    let mut placed = Vec::new();
    for i in 0..40u32 {
        let message = make(i % 3, (i as usize * 37) % 300, i as u8);
        let done = store.put_message(&message).unwrap();
        placed.push((message, done));
    }
    assert!(store.log().segment_count() > 5);
    for (message, done) in &placed {
        let bytes = store.get_message(done.physical_offset, done.wrote_bytes).unwrap();
        assert_eq!(bytes, encode_record(message, done.queue_offset, done.physical_offset));
        assert_eq!(done.wrote_bytes, RECORD_HEADER_SIZE + message.body.len());
    }
}

#[test]
fn entries_lead_to_records_of_their_queue() {
    let mut store = MessageStore::new(0, 512, 64, 512, false).unwrap();
    let mut counts = [0u64; 3];
    for i in 0..30u32 {
        let queue = i % 3;
        let done = store.put_message(&make(queue, 10 + i as usize, i as u8)).unwrap();
        assert_eq!(done.queue_offset, counts[queue as usize]);
        counts[queue as usize] += 1;
    }
    for queue in 0..3u32 {
        assert_eq!(store.min_offset(queue), 0);
        assert_eq!(store.max_offset(queue), 10);
        for logical in 0..10u64 {
            let entry = store.get_entry(queue, logical).unwrap();
            let record = store.consume(queue, logical).unwrap();
            assert_eq!(record.message.queue_id, queue);
            assert_eq!(record.queue_offset, logical);
            assert_eq!(record.physical_offset, entry.physical_offset);
            assert_eq!(record.length, entry.size);
            assert_eq!(record.message.tags_code, entry.tag_hash_code);
            let i = logical as u32 * 3 + queue;
            assert_eq!(record.message.body, vec![i as u8; 10 + i as usize]);
        }
        assert_eq!(store.consume(queue, 10).err(), Some(StoreError::OffsetOutOfRange));
    }
    assert_eq!(store.consume(9, 0).err(), Some(StoreError::OffsetOutOfRange));
    assert_eq!(store.get_entry(9, 0), Err(StoreError::OffsetOutOfRange));
}

#[test]
fn rebuild_after_recovery_gives_the_same_queues() {
    let mut store = MessageStore::new(0, 512, 64, 512, false).unwrap();
    for i in 0..30u32 {
        store.put_message(&make(i % 3, 10 + i as usize, i as u8)).unwrap();
    }
    let (mut back, outcome) =
        MessageStore::recover(&images(&store), 0, 512, 64, 512, false, true).unwrap();
    assert_eq!(outcome.last_valid_offset, store.log().max_offset());
    for queue in 0..3u32 {
        assert_eq!(back.max_offset(queue), 10);
        assert_eq!(back.log().next_queue_offset(queue), 10);
        for logical in 0..10u64 {
            assert_eq!(back.get_entry(queue, logical), store.get_entry(queue, logical));
            assert_eq!(back.consume(queue, logical).unwrap().queue_offset, logical);
        }
    }
    let done = back.put_message(&make(1, 5, 0xEE)).unwrap();
    assert_eq!(done.queue_offset, 10);
    assert_eq!(done.physical_offset, outcome.last_valid_offset);
    assert_eq!(back.consume(1, 10).unwrap().message.body, vec![0xEE; 5]);
}

#[test]
fn recovery_drops_entries_of_cut_records() {
    let mut store = MessageStore::new(0, 512, 64, 512, false).unwrap();
    let mut last = None;
    for i in 0..5u32 {
        last = Some(store.put_message(&make(1, 20, i as u8)).unwrap());
    }
    let last = last.unwrap();
    let mut found = images(&store);
    found[0][last.physical_offset as usize + 5] = 0;
    let (back, outcome) = MessageStore::recover(&found, 0, 512, 64, 512, false, true).unwrap();
    assert_eq!(outcome.last_valid_offset, last.physical_offset);
    assert_eq!(back.max_offset(1), 4);
    assert_eq!(back.log().next_queue_offset(1), 4);
    assert_eq!(back.consume(1, 4).err(), Some(StoreError::OffsetOutOfRange));
    assert!(back.consume(1, 3).is_ok());
}

#[test]
fn rebuild_leaves_out_records_whose_queue_offset_does_not_fit() {
    let a = encode_record(&make(1, 10, 1), 0, 0);
    let b = encode_record(&make(1, 10, 2), 5, a.len() as u64);
    let c = encode_record(&make(1, 10, 3), 1, (a.len() + b.len()) as u64);
    let mut image = Vec::new();
    image.extend_from_slice(&a);
    image.extend_from_slice(&b);
    image.extend_from_slice(&c);
    image.resize(512, 0);
    let (store, outcome) = MessageStore::recover(&vec![image], 0, 512, 4, 512, false, true).unwrap();
    assert_eq!(outcome.last_valid_offset, (a.len() * 3) as u64);
    assert_eq!(store.max_offset(1), 2);
    assert_eq!(store.consume(1, 0).unwrap().message.body, vec![1; 10]);
    assert_eq!(store.consume(1, 1).unwrap().message.body, vec![3; 10]);
}

#[test]
fn rebuilt_queue_starts_at_the_first_record_found() {
    let mut store = MessageStore::new(0, 256, 64, 256, false).unwrap();
    for i in 0..9u32 {
        store.put_message(&make(1, 40, i as u8)).unwrap();
    }
    assert_eq!(store.log().segment_count(), 5);
    assert_eq!(store.delete_expired(600), 2);
    assert_eq!(store.log().min_offset(), 512);
    assert_eq!(store.min_offset(1), 4);
    let (back, _) = MessageStore::recover(&images(&store), 512, 256, 64, 256, false, true).unwrap();
    assert_eq!(back.min_offset(1), 4);
    assert_eq!(back.max_offset(1), 9);
    assert_eq!(back.consume(1, 4).unwrap().message.body, vec![4; 40]);
    assert_eq!(back.consume(1, 3).err(), Some(StoreError::OffsetOutOfRange));
}

#[test]
fn expiry_reclaims_segments_and_their_entries() {
    let mut store = MessageStore::new(0, 256, 64, 256, false).unwrap();
    for i in 0..9u32 {
        store.put_message(&make(i % 2, 40, i as u8)).unwrap();
    }
    assert_eq!(store.delete_expired(255), 0);
    assert_eq!(store.delete_expired(256), 1);
    assert_eq!(store.log().min_offset(), 256);
    assert_eq!(store.min_offset(0), 1);
    assert_eq!(store.min_offset(1), 1);
    assert_eq!(store.get_message(0, 10), Err(StoreError::OffsetOutOfRange));
    assert_eq!(store.consume(0, 0).err(), Some(StoreError::OffsetOutOfRange));
    assert_eq!(store.consume(0, 1).unwrap().message.body, vec![2; 40]);
    assert_eq!(store.delete_expired(u64::MAX), 3);
    assert_eq!(store.log().segment_count(), 1);
    assert_eq!(store.max_offset(0), 5);
    assert_eq!(store.consume(0, 4).unwrap().message.body, vec![8; 40]);
    store.correct_min_offset();
    assert_eq!(store.min_offset(0), 4);
    assert_eq!(store.put_message(&make(0, 1, 1)).unwrap().queue_offset, 5);
}

#[test]
fn busy_append_point_turns_appends_away() {
    let mut store = MessageStore::new(0, 256, 8, 256, false).unwrap();
    let m = make(1, 10, 1);
    assert_eq!(store.put_message_at(&m, Some(1000), 2001, 1000), Err(StoreError::PageCacheBusy));
    assert_eq!(store.log().max_offset(), 0);
    assert!(store.put_message_at(&m, Some(1000), 2000, 1000).is_ok());
    assert!(store.put_message_at(&m, None, 2001, 0).is_ok());
    assert!(store.put_message_at(&m, Some(3000), 2001, 0).is_ok());
    assert!(store.put_message_at(&m, Some(0), 10_000_000, 1000).is_ok());
    assert_eq!(
        store.put_message_at(&m, Some(1), 10_000_000, 1000),
        Err(StoreError::PageCacheBusy)
    );
}

#[test]
fn store_errors_come_from_the_log() {
    let mut store = MessageStore::new(0, 256, 1, 200, false).unwrap();
    assert_eq!(store.put_message(&make(1, 200, 1)), Err(StoreError::MessageIllegal));
    store.put_message(&make(1, 100, 1)).unwrap();
    assert_eq!(store.put_message(&make(1, 100, 1)), Err(StoreError::DiskFull));
    assert_eq!(store.max_offset(1), 1);
    assert!(MessageStore::new(0, 0, 1, 1, false).is_none());
}

#[test]
fn sync_flush_waits_for_the_end_of_the_record() {
    let mut store = MessageStore::new(0, 8192, 4, 8192, false).unwrap();
    let done = store.put_message(&make(1, 100, 1)).unwrap();
    let request = GroupCommitRequest::new(1, done.physical_offset, done.wrote_bytes, 1000, 500);
    assert_eq!(request.next_offset, 176);
    assert_eq!(request.deadline_ms, 1500);
    assert_eq!(store.flush_status(&request, 1000), WaitStatus::Pending);
    assert_eq!(store.flush(4), 0);
    assert_eq!(store.flush_status(&request, 1499), WaitStatus::Pending);
    assert_eq!(store.flush_status(&request, 1500), WaitStatus::TimedOut);
    assert_eq!(store.flush(0), 176);
    assert_eq!(store.flush_status(&request, 1500), WaitStatus::Done);
    assert_eq!(store.commit(0), 176);
    assert!(store.consume(1, 0).is_ok());
}

#[test]
fn store_opens_with_valid_tunables_only() {
    let mut config = MessageStoreConfig::default();
    assert!(!config.is_valid());
    assert!(MessageStore::open(&config, 0, 4).is_none());
    config.mapped_file_size_commit_log = 1024;
    config.max_message_size = 512;
    assert!(config.is_valid());
    let mut store = MessageStore::open(&config, 0, 4).unwrap();
    assert_eq!(store.put_message(&make(1, 437, 1)), Err(StoreError::MessageIllegal));
    assert!(store.put_message(&make(1, 436, 1)).is_ok());
    assert!(MessageStore::open(&config, 0, 0).is_none());
    config.max_message_size = 1025;
    assert!(MessageStore::open(&config, 0, 4).is_none());
    config.max_message_size = 10;
    config.mapped_file_size_commit_log = 75;
    assert!(MessageStore::open(&config, 0, 4).is_none());
}

#[test]
fn queue_entry_is_what_was_dispatched() {
    let mut store = MessageStore::new(1024, 512, 8, 512, false).unwrap();
    let done = store.put_message(&make(4, 24, 9)).unwrap();
    assert_eq!(done.physical_offset, 1024);
    assert_eq!(
        store.get_entry(4, 0),
        Ok(ConsumeQueueEntry { physical_offset: 1024, size: 100, tag_hash_code: 4024 })
    );
    assert_eq!(store.queues().queue_count(), 1);
    let log: &CommitLog = store.log();
    assert_eq!(log.read_record(1024, true).unwrap().message.tags_code, 4024);
    assert!(log.read_record(1025, false).is_none());
    assert!(log.read_record(1124, false).is_none());
}

fn saved_of(store: &MessageStore, queue_id: u32, first: u64, last: u64) -> SavedQueue {
    SavedQueue {
        queue_id,
        first_offset: first,
        entries: (first..last).map(|l| store.get_entry(queue_id, l).unwrap()).collect(),
    }
}

#[test]
fn saved_queues_are_kept_as_far_as_they_resolve() {
    let mut store = MessageStore::new(0, 512, 64, 512, false).unwrap();
    for i in 0..30u32 {
        store.put_message(&make(i % 3, 10 + i as usize, i as u8)).unwrap();
    }
    let mut bent = saved_of(&store, 1, 0, 6);
    bent.entries[4].size += 1;
    let mut foreign = saved_of(&store, 2, 0, 10);
    foreign.queue_id = 7;
    let saved = vec![saved_of(&store, 0, 0, 10), bent, foreign, saved_of(&store, 0, 0, 3)];
    let (back, outcome) =
        MessageStore::recover_with_queues(&images(&store), &saved, 0, 512, 64, 512, false, true)
            .unwrap();
    assert_eq!(outcome.last_valid_offset, store.log().max_offset());
    assert!(!back.queues().has_queue(7));
    assert_eq!(back.queues().queue_count(), 3);
    for queue in 0..3u32 {
        assert_eq!(back.min_offset(queue), 0);
        assert_eq!(back.max_offset(queue), 10);
        assert_eq!(back.log().next_queue_offset(queue), 10);
        for logical in 0..10u64 {
            assert_eq!(back.get_entry(queue, logical), store.get_entry(queue, logical));
            assert_eq!(back.consume(queue, logical).unwrap().message.queue_id, queue);
        }
    }
}

#[test]
fn saved_entries_beyond_the_recovered_log_are_dropped() {
    let mut store = MessageStore::new(0, 512, 64, 512, false).unwrap();
    let mut last = None;
    for i in 0..6u32 {
        last = Some(store.put_message(&make(1, 20, i as u8)).unwrap());
    }
    let saved = vec![saved_of(&store, 1, 0, 6)];
    let mut found = images(&store);
    let cut = last.unwrap().physical_offset as usize;
    found[cut / 512][cut % 512 + 4] = 0;
    let (mut back, outcome) =
        MessageStore::recover_with_queues(&found, &saved, 0, 512, 64, 512, false, true).unwrap();
    assert_eq!(outcome.last_valid_offset, cut as u64);
    assert_eq!(back.max_offset(1), 5);
    assert_eq!(back.put_message(&make(1, 20, 0x77)).unwrap().queue_offset, 5);
    assert_eq!(back.consume(1, 5).unwrap().message.body, vec![0x77; 20]);
}

#[test]
fn saved_entries_below_the_log_are_passed_over() {
    let mut store = MessageStore::new(0, 256, 64, 256, false).unwrap();
    for i in 0..9u32 {
        store.put_message(&make(1, 40, i as u8)).unwrap();
    }
    let saved = vec![saved_of(&store, 1, 0, 7)];
    let all = images(&store);
    let later: Vec<Vec<u8>> = all[2..].to_vec();
    let (back, _) =
        MessageStore::recover_with_queues(&later, &saved, 512, 256, 64, 256, false, true).unwrap();
    assert_eq!(back.log().min_offset(), 512);
    assert_eq!(back.min_offset(1), 4);
    assert_eq!(back.max_offset(1), 9);
    assert_eq!(back.queues().queue_count(), 1);
    for logical in 4..9u64 {
        assert_eq!(back.get_entry(1, logical), store.get_entry(1, logical));
    }
}

#[test]
fn going_back_to_a_checkpoint_gives_the_same_queues() {
    let mut store = MessageStore::new(0, 512, 64, 512, false).unwrap();
    let mut offsets = Vec::new();
    for i in 0..30u32 {
        offsets.push(store.put_message(&make(i % 3, 10 + i as usize, i as u8)).unwrap());
    }
    let entries: Vec<Vec<ConsumeQueueEntry>> = (0..3u32)
        .map(|q| (0..10u64).map(|l| store.get_entry(q, l).unwrap()).collect())
        .collect();
    for checkpoint in [0u64, offsets[7].physical_offset, offsets[7].physical_offset + 3, u64::MAX] {
        store.redispatch_from(checkpoint);
        for queue in 0..3u32 {
            assert_eq!(store.max_offset(queue), 10);
            assert_eq!(store.log().next_queue_offset(queue), 10);
            for logical in 0..10u64 {
                assert_eq!(store.get_entry(queue, logical).unwrap(), entries[queue as usize][logical as usize]);
            }
        }
    }
    assert_eq!(store.put_message(&make(2, 1, 1)).unwrap().queue_offset, 10);
}

#[test]
fn queue_files_hold_twenty_bytes_for_each_entry() {
    let mut queue = ConsumeQueue::new(3);
    queue.dispatch(0, 100, 7).unwrap();
    queue.dispatch(100, 200, -7).unwrap();
    assert_eq!(queue.first_offset(), 0);
    let bytes = queue.to_bytes();
    assert_eq!(bytes.len(), 40);
    assert_eq!(&bytes[20..28], &[0, 0, 0, 0, 0, 0, 0, 100]);
    let entries = read_entries(&bytes);
    assert_eq!(
        entries,
        vec![
            ConsumeQueueEntry { physical_offset: 0, size: 100, tag_hash_code: 7 },
            ConsumeQueueEntry { physical_offset: 100, size: 200, tag_hash_code: -7 }
        ]
    );
    assert_eq!(read_entries(&bytes[..39]).len(), 1);
    assert!(read_entries(&[]).is_empty());
    let mut queues = ConsumeQueueStore::new();
    assert!(queues.insert_queue(queue));
    assert!(!queues.insert_queue(ConsumeQueue::new(3)));
    assert_eq!(queues.max_offset(3), 2);
}

#[test]
fn store_keeps_what_is_being_read() {
    let mut store = MessageStore::new(0, 256, 64, 256, false).unwrap();
    for i in 0..9u32 {
        store.put_message(&make(1, 40, i as u8)).unwrap();
    }
    assert!(store.hold(10));
    assert!(!store.hold(100_000));
    assert_eq!(store.delete_expired(u64::MAX), 0);
    assert!(store.consume(1, 0).is_ok());
    store.release(10);
    store.release(100_000);
    assert_eq!(store.delete_expired(u64::MAX), 4);
    assert_eq!(store.consume(1, 0).err(), Some(StoreError::OffsetOutOfRange));
    assert!(store.consume(1, 8).is_ok());
}

#[test]
fn slave_store_indexes_what_it_is_sent() {
    let mut master = MessageStore::new(0, 256, 64, 256, false).unwrap();
    for i in 0..12u32 {
        master.put_message(&make(i % 2, 30 + i as usize, i as u8)).unwrap();
    }
    let end = master.log().max_offset();
    let mut slave = MessageStore::new(0, 256, 64, 256, false).unwrap();
    let mut at = 0u64;
    while at < end {
        let len = std::cmp::min(50, end - at) as usize;
        let body = master.get_message(at, len).unwrap();
        let header = FrameHeader { physical_offset: at, body_length: len as u32 };
        assert_eq!(slave.apply_frame(header, &body), Ok(at + len as u64));
        assert_eq!(slave.apply_frame(header, &body), Err(StoreError::OffsetOutOfRange));
        at += len as u64;
        for queue in 0..2u32 {
            let have = slave.max_offset(queue);
            assert!(have <= master.max_offset(queue));
            for logical in 0..have {
                assert_eq!(slave.get_entry(queue, logical), master.get_entry(queue, logical));
            }
        }
    }
    assert_eq!(slave.log().max_offset(), end);
    for queue in 0..2u32 {
        assert_eq!(slave.max_offset(queue), 6);
        assert_eq!(slave.log().next_queue_offset(queue), 6);
        assert_eq!(slave.consume(queue, 5).unwrap().message.queue_id, queue);
    }
    let bad = FrameHeader { physical_offset: end, body_length: 3 };
    assert_eq!(slave.apply_frame(bad, &[1, 2]), Err(StoreError::Corrupted));
    assert_eq!(slave.put_message(&make(0, 1, 1)).unwrap().queue_offset, 6);
}
