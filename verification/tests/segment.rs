use rocketmq_store::error::StoreError;
use rocketmq_store::segment::MappedSegment;
use rocketmq_store::segment::OS_PAGE_SIZE;

#[test]
fn new_segment_is_empty_and_zeroed() {
    let segment = MappedSegment::new(4096, 64, false);
    assert_eq!(segment.base_offset(), 4096);
    assert_eq!(segment.capacity(), 64);
    assert_eq!(segment.write_position(), 0);
    assert_eq!(segment.committed_position(), 0);
    assert_eq!(segment.flushed_position(), 0);
    assert_eq!(segment.remaining(), 64);
    assert!(!segment.is_full());
    assert!(!segment.is_transient());
    assert_eq!(segment.image(), &[0u8; 64][..]);
}

#[test]
fn segment_append_returns_position_and_fills_up() {
    let mut segment = MappedSegment::new(0, 10, false);
    assert_eq!(segment.append(&[1, 2, 3]), Ok(0));
    assert_eq!(segment.append(&[4, 5, 6, 7]), Ok(3));
    assert_eq!(segment.write_position(), 7);
    assert_eq!(segment.committed_position(), 7);
    assert_eq!(segment.flushed_position(), 0);
    assert_eq!(segment.append(&[8, 9, 10, 11]), Err(StoreError::SegmentFull));
    assert_eq!(segment.write_position(), 7);
    assert_eq!(segment.append(&[8, 9, 10]), Ok(7));
    assert!(segment.is_full());
    assert_eq!(segment.append(&[]), Ok(10));
    assert_eq!(segment.append(&[1]), Err(StoreError::SegmentFull));
    assert_eq!(segment.image(), &[1, 2, 3, 4, 5, 6, 7, 8, 9, 10][..]);
}

#[test]
fn segment_read_stops_at_the_write_position() {
    let mut segment = MappedSegment::new(0, 10, false);
    segment.append(&[1, 2, 3, 4]).unwrap();
    assert_eq!(segment.read(1, 2).unwrap(), &[2, 3][..]);
    assert_eq!(segment.read(0, 4).unwrap(), &[1, 2, 3, 4][..]);
    assert_eq!(segment.read(4, 0).unwrap(), &[0u8; 0][..]);
    assert_eq!(segment.read(3, 2), Err(StoreError::OutOfRange));
    assert_eq!(segment.read(5, 0), Err(StoreError::OutOfRange));
    assert_eq!(segment.read(usize::MAX, 2), Err(StoreError::OutOfRange));
}

#[test]
fn flush_waits_for_enough_dirty_pages() {
    let mut segment = MappedSegment::new(0, 8 * OS_PAGE_SIZE, false);
    segment.append(&vec![7u8; OS_PAGE_SIZE + 10]).unwrap();
    assert!(!segment.is_able_to_flush(2));
    assert_eq!(segment.flush(2), 0);
    assert!(segment.is_able_to_flush(1));
    assert_eq!(segment.flush(1), OS_PAGE_SIZE + 10);
    assert_eq!(segment.flushed_position(), OS_PAGE_SIZE + 10);
    assert!(!segment.is_able_to_flush(0));
    segment.append(&[1]).unwrap();
    assert!(!segment.is_able_to_flush(1));
    assert!(segment.is_able_to_flush(0));
    assert_eq!(segment.flush(0), OS_PAGE_SIZE + 11);
}

#[test]
fn full_segment_is_always_flushed() {
    let mut segment = MappedSegment::new(0, 100, false);
    segment.append(&[1u8; 100]).unwrap();
    assert!(segment.is_able_to_flush(1000));
    assert_eq!(segment.flush(1000), 100);
}

#[test]
fn transient_segment_commits_before_it_flushes() {
    let mut segment = MappedSegment::new(0, 4 * OS_PAGE_SIZE, true);
    segment.append(&vec![1u8; OS_PAGE_SIZE]).unwrap();
    assert_eq!(segment.write_position(), OS_PAGE_SIZE);
    assert_eq!(segment.committed_position(), 0);
    assert!(!segment.is_able_to_flush(0));
    assert_eq!(segment.flush(0), 0);
    assert!(!segment.is_able_to_commit(2));
    assert_eq!(segment.commit(2), 0);
    assert!(segment.is_able_to_commit(1));
    assert_eq!(segment.commit(1), OS_PAGE_SIZE);
    assert_eq!(segment.flush(0), OS_PAGE_SIZE);
    assert!(!segment.is_able_to_commit(0));
}

#[test]
fn plain_segment_never_commits() {
    let mut segment = MappedSegment::new(0, 100, false);
    segment.append(&[1u8; 10]).unwrap();
    assert!(!segment.is_able_to_commit(0));
    assert_eq!(segment.commit(0), 10);
}

#[test]
fn seal_moves_the_write_position_over_zeros() {
    let mut segment = MappedSegment::new(0, 10, false);
    segment.append(&[1, 2]).unwrap();
    segment.seal();
    assert!(segment.is_full());
    assert_eq!(segment.committed_position(), 10);
    assert_eq!(segment.read(2, 8).unwrap(), &[0u8; 8][..]);
    let mut transient = MappedSegment::new(0, 10, true);
    transient.append(&[1, 2]).unwrap();
    transient.seal();
    assert_eq!(transient.write_position(), 10);
    assert_eq!(transient.committed_position(), 0);
}

#[test]
fn restore_wipes_what_follows_the_valid_bytes() {
    let segment = MappedSegment::restore(100, &[1, 2, 3, 4, 5], 3, true);
    assert_eq!(segment.base_offset(), 100);
    assert_eq!(segment.image(), &[1, 2, 3, 0, 0][..]);
    assert_eq!(segment.write_position(), 3);
    assert_eq!(segment.committed_position(), 3);
    assert_eq!(segment.flushed_position(), 3);
    assert!(segment.is_transient());
}

#[test]
fn reads_are_counted() {
    let mut segment = MappedSegment::new(0, 10, false);
    assert_eq!(segment.readers(), 0);
    segment.release();
    assert_eq!(segment.readers(), 0);
    assert!(segment.hold());
    assert!(segment.hold());
    assert_eq!(segment.readers(), 2);
    segment.release();
    assert_eq!(segment.readers(), 1);
}
