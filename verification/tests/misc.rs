use rocketmq_store::commit_log::CommitLog;
use rocketmq_store::config::BrokerRole;
use rocketmq_store::config::FlushDiskType;
use rocketmq_store::config::MessageStoreConfig;
use rocketmq_store::env_utils::EnvUtils;
use rocketmq_store::env_utils::ROCKETMQ_HOME_ENV;
use rocketmq_store::error::append_status;
use rocketmq_store::error::AppendStatus;
use rocketmq_store::error::ErrorKind;
use rocketmq_store::error::StoreError;
use rocketmq_store::file_name::file_name_to_offset;
use rocketmq_store::file_name::find_segment;
use rocketmq_store::file_name::follow_in_step;
use rocketmq_store::file_name::offset_to_file_name;
use rocketmq_store::flush::FlushPolicy;
use rocketmq_store::ha::MasterSide;
use rocketmq_store::header::GetConsumerConnectionListRequestHeader;
use rocketmq_store::header::CONSUMER_GROUP;
use rocketmq_store::record::Message;

#[test]
fn home_is_the_variable_or_the_current_directory() {
    assert_eq!(EnvUtils::home_variable(), "ROCKETMQ_HOME");
    assert_eq!(ROCKETMQ_HOME_ENV, "ROCKETMQ_HOME");
    let set = EnvUtils::rocketmq_home(Some("/opt/mq".to_string()), "/tmp".to_string());
    assert_eq!(set.path, "/opt/mq");
    assert!(!set.must_export);
    let unset = EnvUtils::rocketmq_home(None, "/tmp".to_string());
    assert_eq!(unset.path, "/tmp");
    assert!(unset.must_export);
}

#[test]
fn header_holds_its_consumer_group() {
    assert_eq!(CONSUMER_GROUP, "consumerGroup");
    let group = "group-a".to_string();
    let mut header = GetConsumerConnectionListRequestHeader::from_field(Some(&group)).unwrap();
    assert_eq!(header.get_consumer_group(), "group-a");
    header.set_consumer_group("group-b".to_string());
    assert_eq!(header.get_consumer_group(), "group-b");
    assert_eq!(header.consumer_group, "group-b");
    let missing = GetConsumerConnectionListRequestHeader::from_field(None).unwrap();
    assert_eq!(missing.get_consumer_group(), "");
}

#[test]
fn file_names_are_twenty_digits() {
    assert_eq!(offset_to_file_name(0), b"00000000000000000000".to_vec());
    assert_eq!(offset_to_file_name(1_073_741_824), b"00000000001073741824".to_vec());
    assert_eq!(offset_to_file_name(u64::MAX), b"18446744073709551615".to_vec());
    assert_eq!(file_name_to_offset(b"00000000001073741824"), Some(1_073_741_824));
    assert_eq!(file_name_to_offset(b"18446744073709551615"), Some(u64::MAX));
    assert_eq!(file_name_to_offset(b"18446744073709551616"), None);
    assert_eq!(file_name_to_offset(b"99999999999999999999"), None);
    assert_eq!(file_name_to_offset(b"0000000000107374182"), None);
    assert_eq!(file_name_to_offset(b"000000000010737418240"), None);
    assert_eq!(file_name_to_offset(b"0000000000107374182x"), None);
    assert_eq!(file_name_to_offset(b"-0000000000000000001"), None);
    for offset in [0u64, 9, 10, 4096, 123_456_789_012_345_678, u64::MAX - 1] {
        assert_eq!(file_name_to_offset(&offset_to_file_name(offset)), Some(offset));
    }
    assert!(offset_to_file_name(999) < offset_to_file_name(1_000));
}

#[test]
fn segment_is_found_by_bisection() {
    let bases = [1024u64, 2048, 3072, 4096];
    assert_eq!(find_segment(&bases, 1023), None);
    assert_eq!(find_segment(&bases, 1024), Some(0));
    assert_eq!(find_segment(&bases, 2047), Some(0));
    assert_eq!(find_segment(&bases, 2048), Some(1));
    assert_eq!(find_segment(&bases, 4095), Some(2));
    assert_eq!(find_segment(&bases, u64::MAX), Some(3));
    assert_eq!(find_segment(&[], 5), None);
    assert_eq!(find_segment(&[7], 7), Some(0));
}

#[test]
fn errors_fall_into_their_classes() {
    let all = [
        (StoreError::SegmentFull, ErrorKind::Capacity, AppendStatus::Rejected, "segment full"),
        (StoreError::DiskFull, ErrorKind::Capacity, AppendStatus::Rejected, "disk full"),
        (StoreError::PageCacheBusy, ErrorKind::Capacity, AppendStatus::Rejected, "page cache busy"),
        (StoreError::MessageIllegal, ErrorKind::Range, AppendStatus::Rejected, "message illegal"),
        (StoreError::OutOfRange, ErrorKind::Range, AppendStatus::Rejected, "out of range"),
        (
            StoreError::OffsetOutOfRange,
            ErrorKind::Range,
            AppendStatus::Rejected,
            "offset out of range",
        ),
        (StoreError::FlushTimeout, ErrorKind::Timeout, AppendStatus::Timeout, "flush timeout"),
        (
            StoreError::ReplicationTimeout,
            ErrorKind::Timeout,
            AppendStatus::Timeout,
            "replication timeout",
        ),
        (StoreError::Corrupted, ErrorKind::Integrity, AppendStatus::Rejected, "corrupted"),
        (StoreError::Disconnected, ErrorKind::Connectivity, AppendStatus::Rejected, "disconnected"),
    ];
    for (error, kind, status, name) in all {
        assert_eq!(error.kind(), kind);
        assert_eq!(error.status(), status);
        assert_eq!(error.name(), name);
        assert_eq!(append_status::<u8>(&Err(error)), status);
    }
    assert_eq!(append_status(&Ok(1u8)), AppendStatus::Success);
}

#[test]
fn tunables_give_the_policies() {
    let mut config = MessageStoreConfig::default();
    assert_eq!(config.broker_role, BrokerRole::AsyncMaster);
    assert_eq!(config.flush_disk_type, FlushDiskType::AsyncFlush);
    assert!(!config.waits_for_flush());
    assert!(!config.waits_for_replication());
    config.flush_interval_commit_log = 500;
    config.flush_commit_log_least_pages = 4;
    config.flush_commit_log_thorough_interval = 10_000;
    config.commit_interval_commit_log = 200;
    config.commit_commit_log_least_pages = 2;
    config.commit_commit_log_thorough_interval = 300;
    config.flush_interval_consume_queue = 1_000;
    config.flush_consume_queue_least_pages = 1;
    config.flush_consume_queue_thorough_interval = 60_000;
    config.ha_housekeeping_interval = 20_000;
    config.flush_disk_type = FlushDiskType::SyncFlush;
    config.broker_role = BrokerRole::SyncMaster;
    assert_eq!(
        config.flush_policy(),
        FlushPolicy { interval_ms: 500, least_pages: 4, thorough_interval_ms: 10_000 }
    );
    assert_eq!(
        config.commit_policy(),
        FlushPolicy { interval_ms: 200, least_pages: 2, thorough_interval_ms: 300 }
    );
    assert_eq!(
        config.consume_queue_flush_policy(),
        FlushPolicy { interval_ms: 1_000, least_pages: 1, thorough_interval_ms: 60_000 }
    );
    assert_eq!(
        config.master_side(5, 9),
        MasterSide { min_offset: 5, max_offset: 9, housekeeping_interval_ms: 20_000 }
    );
    assert!(config.waits_for_flush());
    assert!(config.waits_for_replication());
    config.broker_role = BrokerRole::Slave;
    assert!(!config.waits_for_replication());
}

fn small(queue_id: u32, body: usize) -> Message {
    Message {
        queue_id,
        flag: 0,
        born_timestamp: 0,
        store_timestamp: 0,
        born_host: 0,
        tags_code: 0,
        properties: Vec::new(),
        body: vec![1; body],
    }
}

#[test]
fn log_flushes_one_segment_after_the_other() {
    let mut log = CommitLog::new(0, 256, 8, 256, false).unwrap();
    log.append_message(&small(1, 100)).unwrap();
    log.append_message(&small(1, 100)).unwrap();
    assert_eq!(log.max_offset(), 256 + 176);
    assert_eq!(log.flushed_offset(), 0);
    assert_eq!(log.committed_offset(), 256 + 176);
    assert_eq!(log.flush(1_000), 256);
    assert_eq!(log.flush(1), 256);
    assert_eq!(log.flush(0), 256 + 176);
    assert_eq!(log.flush(0), 256 + 176);
    assert_eq!(log.flushed_offset(), 432);
}

#[test]
fn transient_log_commits_before_it_flushes() {
    let mut log = CommitLog::new(0, 256, 8, 256, true).unwrap();
    log.append_message(&small(1, 100)).unwrap();
    log.append_message(&small(1, 100)).unwrap();
    assert_eq!(log.committed_offset(), 0);
    assert_eq!(log.flush(0), 0);
    assert_eq!(log.commit(5), 256);
    assert_eq!(log.flush(0), 256);
    assert_eq!(log.commit(1), 256);
    assert_eq!(log.commit(0), 432);
    assert_eq!(log.flush(0), 432);
}

#[test]
fn expired_segments_leave_the_log() {
    let mut log = CommitLog::new(0, 256, 8, 256, false).unwrap();
    for _ in 0..4 {
        log.append_message(&small(1, 100)).unwrap();
    }
    assert_eq!(log.segment_count(), 4);
    assert_eq!(log.delete_expired(511), 1);
    assert_eq!(log.min_offset(), 256);
    assert_eq!(log.delete_expired(511), 0);
    assert_eq!(log.delete_expired(u64::MAX), 2);
    assert_eq!(log.segment_count(), 1);
    assert_eq!(log.min_offset(), 768);
    assert_eq!(log.max_offset(), 768 + 176);
    assert_eq!(log.get_message(767, 1), Err(StoreError::OffsetOutOfRange));
    assert_eq!(log.get_message(768, 176).unwrap().len(), 176);
    assert_eq!(log.segment_end(800), 1024);
    assert_eq!(log.append_message(&small(1, 100)).unwrap().physical_offset, 1024);
    assert_eq!(log.segment_end(768), 1024);
    assert_eq!(log.segment_end(1024), 1280);
}

#[test]
fn queue_offset_cannot_outrun_the_log() {
    let mut log = CommitLog::new(0, 256, 8, 256, false).unwrap();
    log.append_message(&small(1, 24)).unwrap();
    assert!(!log.set_queue_offset(3, 101));
    assert_eq!(log.next_queue_offset(3), 0);
    assert!(log.set_queue_offset(3, 100));
    assert_eq!(log.next_queue_offset(3), 100);
    assert_eq!(log.append_message(&small(3, 24)).unwrap().queue_offset, 100);
    assert_eq!(log.next_queue_offset(3), 101);
    assert_eq!(log.segment_size(), 256);
}

#[test]
fn raw_bytes_fill_segments_as_they_come() {
    let mut log = CommitLog::new(100, 10, 3, 10, false).unwrap();
    assert_eq!(log.append_raw(&[1, 2, 3]), 3);
    assert_eq!(log.append_raw(&[]), 0);
    let many: Vec<u8> = (10..30).collect();
    assert_eq!(log.append_raw(&many), 20);
    assert_eq!(log.segment_count(), 3);
    assert_eq!(log.max_offset(), 123);
    assert_eq!(log.get_message(103, 20).unwrap(), many);
    assert_eq!(log.append_raw(&[0xFF; 9]), 7);
    assert_eq!(log.max_offset(), 130);
    assert_eq!(log.append_raw(&[0xFF; 9]), 0);
    assert_eq!(log.segment_image(2), &[27, 28, 29, 255, 255, 255, 255, 255, 255, 255][..]);
}

#[test]
fn a_segment_under_a_read_is_not_given_up() {
    let mut log = CommitLog::new(0, 256, 8, 256, false).unwrap();
    for _ in 0..4 {
        log.append_message(&small(1, 100)).unwrap();
    }
    assert!(!log.hold(u64::MAX));
    assert!(!log.hold(log.max_offset()));
    assert!(log.hold(300));
    assert!(log.hold(511));
    assert_eq!(log.delete_expired(u64::MAX), 1);
    assert_eq!(log.min_offset(), 256);
    log.release(300);
    assert_eq!(log.delete_expired(u64::MAX), 0);
    log.release(0);
    log.release(256);
    assert_eq!(log.delete_expired(u64::MAX), 2);
    assert_eq!(log.min_offset(), 768);
    log.release(768);
    assert_eq!(log.segment_count(), 1);
}

#[test]
fn a_missing_segment_file_is_found_out() {
    assert!(follow_in_step(&[], 256));
    assert!(follow_in_step(&[512], 256));
    assert!(follow_in_step(&[512, 768, 1024], 256));
    assert!(!follow_in_step(&[512, 1024], 256));
    assert!(!follow_in_step(&[512, 768, 1280], 256));
    assert!(!follow_in_step(&[768, 512], 256));
    assert!(!follow_in_step(&[512, 512], 256));
    assert!(follow_in_step(&[7, 7, 7], 0));
    assert!(!follow_in_step(&[u64::MAX - 10, 100], 256));
    assert!(follow_in_step(&[u64::MAX - 256, u64::MAX], 256));
}
