use rocketmq_store::commit_log::CommitLog;
use rocketmq_store::error::StoreError;
use rocketmq_store::record::encode_record;
use rocketmq_store::record::Message;
use rocketmq_store::record::RECORD_HEADER_SIZE;
use rocketmq_store::recovery::is_blank;
use rocketmq_store::recovery::scan_segment_end;

fn msg(queue_id: u32, body: usize, fill: u8) -> Message {
    Message {
        queue_id,
        flag: 0,
        born_timestamp: 11,
        store_timestamp: 22,
        born_host: 33,
        tags_code: 44,
        properties: vec![fill; 3],
        body: vec![fill; body],
    }
}

fn images_of(log: &CommitLog) -> Vec<Vec<u8>> {
    (0..log.segment_count()).map(|k| log.segment_image(k).to_vec()).collect()
}

fn filled_log() -> CommitLog {
    let mut log = CommitLog::new(0, 256, 8, 256, false).unwrap();
    log.append_message(&msg(1, 21, 0xA1)).unwrap();
    log.append_message(&msg(2, 70, 0xA2)).unwrap();
    log.append_message(&msg(1, 100, 0xA3)).unwrap();
    log.append_message(&msg(1, 0, 0xA4)).unwrap();
    log
}

#[test]
fn scan_walks_over_records_and_stops_at_zeros() {
    let a = encode_record(&msg(1, 10, 1), 0, 1000);
    let b = encode_record(&msg(1, 20, 2), 1, 1000 + a.len() as u64);
    let mut image = Vec::new();
    image.extend_from_slice(&a);
    image.extend_from_slice(&b);
    let end = image.len();
    image.resize(400, 0);
    assert_eq!(scan_segment_end(&image, 1000, true), end);
    assert_eq!(scan_segment_end(&image, 1000, false), end);
    assert_eq!(scan_segment_end(&image, 999, false), 0);
    assert!(is_blank(&image, end));
    assert!(!is_blank(&image, 0));
    assert!(is_blank(&image, 397));
    assert!(is_blank(&image, 396));
}

#[test]
fn recovery_of_a_clean_log_loses_nothing() {
    let log = filled_log();
    assert_eq!(log.segment_count(), 3);
    assert_eq!(log.max_offset(), 512 + 79);
    let images = images_of(&log);
    for check_crc in [true, false] {
        let (recovered, outcome) =
            CommitLog::recover(&images, 0, 256, 8, 256, false, check_crc).unwrap();
        assert_eq!(outcome.last_valid_offset, log.max_offset());
        assert_eq!(outcome.kept_segments, 3);
        assert_eq!(outcome.dropped_segments, 0);
        assert!(!outcome.wiped);
        assert_eq!(recovered.max_offset(), log.max_offset());
        assert_eq!(images_of(&recovered), images);
        assert_eq!(recovered.flushed_offset(), log.max_offset());
        assert_eq!(recovered.next_queue_offset(1), 0);
    }
}

#[test]
fn recovery_is_idempotent() {
    let log = filled_log();
    let mut images = images_of(&log);
    images[1][30] ^= 0x55;
    images.push(vec![0xCC; 256]);
    let (first, one) = CommitLog::recover(&images, 0, 256, 8, 256, false, true).unwrap();
    let (second, two) =
        CommitLog::recover(&images_of(&first), 0, 256, 8, 256, false, true).unwrap();
    assert_eq!(one.last_valid_offset, 256);
    assert_eq!(two.last_valid_offset, 256);
    assert_eq!(one.kept_segments, 2);
    assert_eq!(one.dropped_segments, 2);
    assert!(one.wiped);
    assert_eq!(two.dropped_segments, 0);
    assert!(!two.wiped);
    assert_eq!(images_of(&first), images_of(&second));
    assert_eq!(first.segment_count(), 2);
}

#[test]
fn crash_in_the_middle_of_an_append_is_cut_off() {
    let mut log = CommitLog::new(0, 1024, 8, 1024, false).unwrap();
    log.append_message(&msg(1, 40, 1)).unwrap();
    let second = log.append_message(&msg(1, 60, 2)).unwrap();
    let boundary = log.max_offset();
    assert_eq!(boundary, second.physical_offset + second.wrote_bytes as u64);
    let torn = encode_record(&msg(1, 80, 3), 2, boundary);
    for written in [1usize, 4, 7, 8, 50, torn.len() - 1] {
        let mut images = images_of(&log);
        let at = boundary as usize;
        images[0][at..at + written].copy_from_slice(&torn[..written]);
        let (mut recovered, outcome) =
            CommitLog::recover(&images, 0, 1024, 8, 1024, false, true).unwrap();
        assert_eq!(outcome.last_valid_offset, boundary);
        assert_eq!(outcome.wiped, written >= 4);
        assert_eq!(recovered.max_offset(), boundary);
        assert_eq!(recovered.get_message(0, at).unwrap(), log.get_message(0, at).unwrap());
        let next = recovered.append_message(&msg(1, 5, 9)).unwrap();
        assert_eq!(next.physical_offset, boundary);
        assert_eq!(recovered.max_offset(), boundary + next.wrote_bytes as u64);
    }
}

#[test]
fn crash_after_a_rollover_ends_at_the_new_segment() {
    let mut log = CommitLog::new(0, 256, 8, 256, false).unwrap();
    log.append_message(&msg(1, 100, 1)).unwrap();
    let mut images = images_of(&log);
    let torn = encode_record(&msg(1, 100, 2), 1, 256);
    let mut next = vec![0u8; 256];
    next[..6].copy_from_slice(&torn[..6]);
    images.push(next);
    let (mut recovered, outcome) =
        CommitLog::recover(&images, 0, 256, 8, 256, false, true).unwrap();
    assert_eq!(outcome.last_valid_offset, 256);
    assert_eq!(outcome.kept_segments, 2);
    assert_eq!(recovered.append_message(&msg(1, 100, 2)).unwrap().physical_offset, 256);
}

#[test]
fn check_value_catches_a_flipped_body_only_if_asked() {
    let log = filled_log();
    let mut images = images_of(&log);
    let flipped = RECORD_HEADER_SIZE + 3 + 5;
    images[0][flipped] ^= 1;
    let (_, with) = CommitLog::recover(&images, 0, 256, 8, 256, false, true).unwrap();
    assert_eq!(with.last_valid_offset, 0);
    assert_eq!(with.dropped_segments, 2);
    let (_, without) = CommitLog::recover(&images, 0, 256, 8, 256, false, false).unwrap();
    assert_eq!(without.last_valid_offset, log.max_offset());
}

#[test]
fn stale_record_of_another_offset_is_not_valid() {
    let stale = encode_record(&msg(1, 10, 1), 0, 512);
    let mut image = vec![0u8; 256];
    image[..stale.len()].copy_from_slice(&stale);
    let (log, outcome) =
        CommitLog::recover(&vec![image.clone()], 0, 256, 8, 256, false, true).unwrap();
    assert_eq!(outcome.last_valid_offset, 0);
    assert!(outcome.wiped);
    assert_eq!(log.segment_image(0), &[0u8; 256][..]);
    let (_, fits) = CommitLog::recover(&vec![image], 512, 256, 8, 256, false, true).unwrap();
    assert_eq!(fits.last_valid_offset, 512 + stale.len() as u64);
}

#[test]
fn record_with_too_large_a_queue_offset_is_not_valid() {
    let odd = encode_record(&msg(1, 10, 1), 1, 0);
    let mut image = vec![0u8; 256];
    image[..odd.len()].copy_from_slice(&odd);
    let (_, outcome) = CommitLog::recover(&vec![image], 0, 256, 8, 256, false, true).unwrap();
    assert_eq!(outcome.last_valid_offset, 0);
}

#[test]
fn unusable_images_are_fatal() {
    let good = vec![0u8; 256];
    let none: Vec<Vec<u8>> = Vec::new();
    assert_eq!(
        CommitLog::recover(&none, 0, 256, 8, 256, false, true).err(),
        Some(StoreError::Corrupted)
    );
    assert_eq!(
        CommitLog::recover(&vec![good.clone(), vec![0u8; 255]], 0, 256, 8, 256, false, true).err(),
        Some(StoreError::Corrupted)
    );
    assert_eq!(
        CommitLog::recover(&vec![good.clone(), good.clone()], 0, 256, 1, 256, false, true).err(),
        Some(StoreError::Corrupted)
    );
    assert_eq!(
        CommitLog::recover(&vec![good.clone()], 0, 0, 8, 256, false, true).err(),
        Some(StoreError::Corrupted)
    );
    assert_eq!(
        CommitLog::recover(&vec![good.clone(), good.clone()], u64::MAX - 511, 256, 8, 256, false, true)
            .err(),
        Some(StoreError::Corrupted)
    );
    assert!(CommitLog::recover(&vec![good.clone(), good], u64::MAX - 512, 256, 8, 256, false, true)
        .is_ok());
}

#[test]
fn empty_segments_end_the_log_at_its_base() {
    let images = vec![vec![0u8; 128], vec![0u8; 128]];
    let (log, outcome) = CommitLog::recover(&images, 1280, 128, 8, 128, true, false).unwrap();
    assert_eq!(outcome.last_valid_offset, 1280 + 128);
    assert_eq!(outcome.kept_segments, 2);
    assert!(!outcome.wiped);
    assert_eq!(log.min_offset(), 1280);
    assert_eq!(log.max_offset(), 1408);
}

#[test]
fn segments_before_the_checkpoint_are_taken_on_trust() {
    let log = filled_log();
    let mut images = images_of(&log);
    images[0][30] ^= 0x55;
    let (_, all) = CommitLog::recover_from(&images, 0, 0, 256, 8, 256, false, true).unwrap();
    assert_eq!(all.last_valid_offset, 0);
    let (trusting, later) = CommitLog::recover_from(&images, 1, 0, 256, 8, 256, false, true).unwrap();
    assert_eq!(later.last_valid_offset, log.max_offset());
    assert_eq!(later.kept_segments, 3);
    assert_eq!(trusting.segment_image(0), &images[0][..]);
    let (_, last) = CommitLog::recover_from(&images, 2, 0, 256, 8, 256, false, true).unwrap();
    assert_eq!(last.last_valid_offset, log.max_offset());
    let (_, beyond) = CommitLog::recover_from(&images, 99, 0, 256, 8, 256, false, true).unwrap();
    assert_eq!(beyond.last_valid_offset, log.max_offset());
    images[2][3] = 0;
    let (cut, torn) = CommitLog::recover_from(&images, 99, 0, 256, 8, 256, false, true).unwrap();
    assert_eq!(torn.last_valid_offset, 512);
    assert!(torn.wiped);
    assert_eq!(cut.max_offset(), 512);
    assert_eq!(
        CommitLog::recover_from(&Vec::new(), 0, 0, 256, 8, 256, false, true).err(),
        Some(StoreError::Corrupted)
    );
}

#[test]
fn a_log_cut_below_what_is_required_is_fatal() {
    let log = filled_log();
    let mut images = images_of(&log);
    images[1][30] ^= 0x55;
    let (_, outcome) = CommitLog::recover(&images, 0, 256, 8, 256, false, true).unwrap();
    assert_eq!(outcome.last_valid_offset, 256);
    assert_eq!(outcome.verdict(256), Ok(()));
    assert_eq!(outcome.verdict(0), Ok(()));
    assert_eq!(outcome.verdict(257), Err(StoreError::Corrupted));
}
