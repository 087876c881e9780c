use rocketmq_store::commit_log::CommitLog;
use rocketmq_store::error::StoreError;
use rocketmq_store::record::decode_record;
use rocketmq_store::record::encode_record;
use rocketmq_store::record::Message;
use rocketmq_store::record::MESSAGE_MAGIC_CODE;
use rocketmq_store::record::RECORD_HEADER_SIZE;

fn message(queue_id: u32, properties: usize, body: usize, fill: u8) -> Message {
    Message {
        queue_id,
        flag: 7,
        born_timestamp: 1_700_000_000_000,
        store_timestamp: 1_700_000_000_123,
        born_host: 0x7F00_0001_0000_2A2A,
        tags_code: -42,
        properties: vec![fill; properties],
        body: vec![fill.wrapping_add(1); body],
    }
}

#[test]
fn record_layout_is_big_endian_and_fixed() {
    let m = message(3, 2, 5, 0x10);
    let bytes = encode_record(&m, 9, 0x0102_0304_0506_0708);
    assert_eq!(bytes.len(), RECORD_HEADER_SIZE + 2 + 5);
    assert_eq!(&bytes[0..4], &[0, 0, 0, 83]);
    assert_eq!(&bytes[4..8], &[0xDA, 0xA3, 0x20, 0xA7]);
    assert_eq!(MESSAGE_MAGIC_CODE, 0xDAA3_20A7);
    assert_eq!(&bytes[12..16], &[0, 0, 0, 3]);
    assert_eq!(&bytes[16..20], &[0, 0, 0, 7]);
    assert_eq!(&bytes[20..28], &[0, 0, 0, 0, 0, 0, 0, 9]);
    assert_eq!(&bytes[28..36], &[1, 2, 3, 4, 5, 6, 7, 8]);
    assert_eq!(&bytes[60..68], &[0xFF, 0xFF, 0xFF, 0xFF, 0xFF, 0xFF, 0xFF, 0xD6]);
    assert_eq!(&bytes[68..72], &[0, 0, 0, 2]);
    assert_eq!(&bytes[72..76], &[0, 0, 0, 5]);
    assert_eq!(&bytes[76..78], &[0x10, 0x10]);
    assert_eq!(&bytes[78..83], &[0x11; 5]);
}

#[test]
fn record_round_trip() {
    let m = message(3, 4, 20, 0x33);
    let bytes = encode_record(&m, 5, 1000);
    let mut data = vec![0u8; 10];
    data.extend_from_slice(&bytes);
    data.extend_from_slice(&[0u8; 7]);
    let record = decode_record(&data, 10, 1000, true).unwrap();
    assert_eq!(record.length as usize, bytes.len());
    assert_eq!(record.queue_offset, 5);
    assert_eq!(record.physical_offset, 1000);
    assert_eq!(record.message.queue_id, 3);
    assert_eq!(record.message.flag, 7);
    assert_eq!(record.message.born_timestamp, 1_700_000_000_000);
    assert_eq!(record.message.store_timestamp, 1_700_000_000_123);
    assert_eq!(record.message.born_host, 0x7F00_0001_0000_2A2A);
    assert_eq!(record.message.tags_code, -42);
    assert_eq!(record.message.properties, vec![0x33; 4]);
    assert_eq!(record.message.body, vec![0x34; 20]);
    assert!(decode_record(&data, 10, 1001, true).is_none());
    assert!(decode_record(&data, 11, 1000, false).is_none());
    data[10 + 80] ^= 1;
    assert!(decode_record(&data, 10, 1000, true).is_none());
    assert!(decode_record(&data, 10, 1000, false).is_some());
}

#[test]
fn scenario_two_records_roll_over() {
    let mut log = CommitLog::new(0, 256, 8, 256, false).unwrap();
    let a = message(1, 0, 100 - RECORD_HEADER_SIZE, 0xA0);
    let b = message(1, 0, 200 - RECORD_HEADER_SIZE, 0xB0);
    let ra = log.append_message(&a).unwrap();
    assert_eq!(ra.physical_offset, 0);
    assert_eq!(ra.queue_offset, 0);
    assert_eq!(ra.wrote_bytes, 100);
    assert_eq!(log.segment_count(), 1);
    let rb = log.append_message(&b).unwrap();
    assert_eq!(rb.physical_offset, 256);
    assert_eq!(rb.queue_offset, 1);
    assert_eq!(rb.wrote_bytes, 200);
    assert_eq!(log.segment_count(), 2);
    assert_eq!(log.max_offset(), 456);
    assert_eq!(log.get_message(100, 156).unwrap(), vec![0u8; 156]);
    assert_eq!(log.get_message(256, 200).unwrap(), encode_record(&b, 1, 256));
    assert_eq!(log.get_message(0, 100).unwrap(), encode_record(&a, 0, 0));
}

#[test]
fn exact_fit_does_not_roll_and_one_more_byte_does() {
    let mut log = CommitLog::new(0, 256, 8, 256, false).unwrap();
    log.append_message(&message(1, 0, 100 - RECORD_HEADER_SIZE, 1)).unwrap();
    let exact = log.append_message(&message(2, 0, 156 - RECORD_HEADER_SIZE, 2)).unwrap();
    assert_eq!(exact.physical_offset, 100);
    assert_eq!(log.segment_count(), 1);
    assert_eq!(log.max_offset(), 256);

    let mut log = CommitLog::new(0, 256, 8, 256, false).unwrap();
    log.append_message(&message(1, 0, 100 - RECORD_HEADER_SIZE, 1)).unwrap();
    let over = log.append_message(&message(2, 0, 157 - RECORD_HEADER_SIZE, 2)).unwrap();
    assert_eq!(over.physical_offset, 256);
    assert_eq!(log.segment_count(), 2);
    assert_eq!(log.get_message(100, 156).unwrap(), vec![0u8; 156]);
    assert_eq!(log.max_offset(), 256 + 157);
}

#[test]
fn append_errors() {
    let mut log = CommitLog::new(0, 256, 2, 200, false).unwrap();
    assert_eq!(
        log.append_message(&message(1, 0, 201 - RECORD_HEADER_SIZE, 1)),
        Err(StoreError::MessageIllegal)
    );
    log.append_message(&message(1, 0, 200 - RECORD_HEADER_SIZE, 1)).unwrap();
    log.append_message(&message(1, 0, 200 - RECORD_HEADER_SIZE, 1)).unwrap();
    assert_eq!(
        log.append_message(&message(1, 0, 200 - RECORD_HEADER_SIZE, 1)),
        Err(StoreError::DiskFull)
    );
    assert_eq!(log.max_offset(), 456);
    assert_eq!(log.append_message(&message(1, 0, 0, 1)), Err(StoreError::DiskFull));
    assert_eq!(log.segment_count(), 2);
    let mut small = CommitLog::new(0, 100, 2, 1000, false).unwrap();
    assert_eq!(
        small.append_message(&message(1, 0, 101 - RECORD_HEADER_SIZE, 1)),
        Err(StoreError::MessageIllegal)
    );
    assert!(CommitLog::new(0, 0, 2, 10, false).is_none());
    assert!(CommitLog::new(0, 10, 0, 10, false).is_none());
    assert!(CommitLog::new(u64::MAX - 5, 10, 1, 10, false).is_none());
}

#[test]
fn get_message_range_errors() {
    let mut log = CommitLog::new(512, 256, 8, 256, false).unwrap();
    log.append_message(&message(1, 0, 10, 1)).unwrap();
    assert_eq!(log.min_offset(), 512);
    assert_eq!(log.max_offset(), 512 + 86);
    assert_eq!(log.get_message(511, 1), Err(StoreError::OffsetOutOfRange));
    assert_eq!(log.get_message(512, 87), Err(StoreError::OffsetOutOfRange));
    assert_eq!(log.get_message(599, 0), Err(StoreError::OffsetOutOfRange));
    assert_eq!(log.get_message(598, 0), Ok(vec![]));
    assert_eq!(log.get_message(512, 86).unwrap().len(), 86);
    assert_eq!(log.get_message(u64::MAX, usize::MAX), Err(StoreError::OffsetOutOfRange));
}

#[test]
fn queue_offsets_count_per_queue() {
    let mut log = CommitLog::new(0, 1024, 8, 1024, false).unwrap();
    assert_eq!(log.append_message(&message(1, 0, 0, 1)).unwrap().queue_offset, 0);
    assert_eq!(log.append_message(&message(2, 0, 0, 1)).unwrap().queue_offset, 0);
    assert_eq!(log.append_message(&message(1, 0, 0, 1)).unwrap().queue_offset, 1);
    assert_eq!(log.next_queue_offset(1), 2);
    assert_eq!(log.next_queue_offset(2), 1);
    assert_eq!(log.next_queue_offset(3), 0);
}
