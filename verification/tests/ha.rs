use rocketmq_store::commit_log::CommitLog;
use rocketmq_store::error::StoreError;
use rocketmq_store::flush::GroupCommitRequest;
use rocketmq_store::flush::WaitStatus;
use rocketmq_store::ha::apply_frame;
use rocketmq_store::ha::check_replication;
use rocketmq_store::ha::count_confirmations;
use rocketmq_store::ha::decode_frame;
use rocketmq_store::ha::decode_handshake;
use rocketmq_store::ha::decode_heartbeat;
use rocketmq_store::ha::encode_frame;
use rocketmq_store::ha::encode_handshake;
use rocketmq_store::ha::encode_heartbeat;
use rocketmq_store::ha::reclaim_floor;
use rocketmq_store::ha::FlowMonitor;
use rocketmq_store::ha::FrameHeader;
use rocketmq_store::ha::HaEvent;
use rocketmq_store::ha::HaSession;
use rocketmq_store::ha::HaState;
use rocketmq_store::ha::Heartbeat;
use rocketmq_store::ha::MasterSide;
use rocketmq_store::ha::SlaveAction;
use rocketmq_store::ha::SlaveEvent;
use rocketmq_store::ha::SlaveSession;
use rocketmq_store::record::Message;

fn master(min_offset: u64, max_offset: u64) -> MasterSide {
    MasterSide { min_offset, max_offset, housekeeping_interval_ms: 20_000 }
}

fn serving(request: u64, ack: u64) -> HaSession {
    HaSession {
        state: HaState::Transferring,
        slave_request_offset: request,
        slave_ack_offset: ack,
        last_heartbeat_ms: 0,
    }
}

fn message(queue_id: u32, body: usize, fill: u8) -> Message {
    Message {
        queue_id,
        flag: 0,
        born_timestamp: 0,
        store_timestamp: 0,
        born_host: 0,
        tags_code: 0,
        properties: Vec::new(),
        body: vec![fill; body],
    }
}

#[test]
fn frames_go_over_the_wire_and_back() {
    let frame = encode_frame(0x0A0B, &[1, 2, 3]).unwrap();
    assert_eq!(frame, vec![0, 0, 0, 0, 0, 0, 0x0A, 0x0B, 0, 0, 0, 3, 1, 2, 3]);
    assert_eq!(decode_frame(&frame, 0), Some(FrameHeader { physical_offset: 0x0A0B, body_length: 3 }));
    assert_eq!(decode_frame(&frame[..14], 0), None);
    assert_eq!(decode_frame(&frame[..11], 0), None);
    assert_eq!(decode_frame(&frame, 1), None);
    let empty = encode_frame(7, &[]).unwrap();
    assert_eq!(decode_frame(&empty, 0), Some(FrameHeader { physical_offset: 7, body_length: 0 }));
    let mut two = frame.clone();
    two.extend_from_slice(&empty);
    assert_eq!(decode_frame(&two, 15), Some(FrameHeader { physical_offset: 7, body_length: 0 }));
}

#[test]
fn heartbeat_and_handshake_go_over_the_wire_and_back() {
    let beat = Heartbeat { slave_offset: 258, timestamp_ms: 3 };
    let bytes = encode_heartbeat(beat);
    assert_eq!(bytes, vec![0, 0, 0, 0, 0, 0, 1, 2, 0, 0, 0, 0, 0, 0, 0, 3]);
    assert_eq!(decode_heartbeat(&bytes, 0), Some(beat));
    assert_eq!(decode_heartbeat(&bytes[..15], 0), None);
    let hand = encode_handshake(u64::MAX);
    assert_eq!(hand, vec![0xFF; 8]);
    assert_eq!(decode_handshake(&hand, 0), Some(u64::MAX));
    assert_eq!(decode_handshake(&hand, 1), None);
}

#[test]
fn session_walks_through_its_states() {
    let side = master(1_000, 5_000);
    let session = HaSession::new(10);
    assert_eq!(session.state, HaState::Connecting);
    let (session, failure) = session.step(HaEvent::Connected, 20, side);
    assert_eq!((session.state, failure), (HaState::Handshake, None));
    let (session, failure) = session.step(HaEvent::Handshake { slave_max_offset: 3_000 }, 30, side);
    assert_eq!(failure, None);
    assert_eq!(
        session,
        HaSession {
            state: HaState::Transferring,
            slave_request_offset: 3_000,
            slave_ack_offset: 3_000,
            last_heartbeat_ms: 30
        }
    );
    let mut session = session;
    assert_eq!(
        session.next_frame(5_000, 1_500, u64::MAX),
        Some(FrameHeader { physical_offset: 3_000, body_length: 1_500 })
    );
    assert_eq!(
        session.next_frame(5_000, 1_500, u64::MAX),
        Some(FrameHeader { physical_offset: 4_500, body_length: 500 })
    );
    assert_eq!(session.next_frame(5_000, 1_500, u64::MAX), None);
    let (session, failure) = session.step(HaEvent::Heartbeat { slave_offset: 4_500 }, 40, side);
    assert_eq!(failure, None);
    assert_eq!(session.slave_ack_offset, 4_500);
    assert_eq!(session.last_heartbeat_ms, 40);
    let (session, _) = session.step(HaEvent::Heartbeat { slave_offset: 4_000 }, 50, side);
    assert_eq!(session.slave_ack_offset, 4_500);
    let (session, failure) = session.step(HaEvent::Tick, 20_050, side);
    assert_eq!((session.state, failure), (HaState::Transferring, None));
    let (session, failure) = session.step(HaEvent::Tick, 20_051, side);
    assert_eq!((session.state, failure), (HaState::Disconnected, Some(StoreError::Disconnected)));
    let (session, failure) = session.step(HaEvent::Connected, 20_060, side);
    assert_eq!((session.state, failure), (HaState::Disconnected, None));
}

#[test]
fn handshake_decides_where_the_slave_starts() {
    let side = master(1_000, 5_000);
    let shaking = HaSession::new(0).step(HaEvent::Connected, 0, side).0;
    let fresh = shaking.step(HaEvent::Handshake { slave_max_offset: 0 }, 1, side).0;
    assert_eq!(fresh.state, HaState::Transferring);
    assert_eq!(fresh.slave_request_offset, 1_000);
    assert_eq!(fresh.slave_ack_offset, 0);
    for inside in [1_000u64, 5_000] {
        let s = shaking.step(HaEvent::Handshake { slave_max_offset: inside }, 1, side).0;
        assert_eq!(s.slave_request_offset, inside);
    }
    for outside in [999u64, 5_001, 1] {
        let (s, failure) = shaking.step(HaEvent::Handshake { slave_max_offset: outside }, 1, side);
        assert_eq!(s.state, HaState::Disconnected);
        assert_eq!(failure, Some(StoreError::OffsetOutOfRange));
    }
}

#[test]
fn unexpected_events_close_the_session() {
    let side = master(0, 100);
    let connecting = HaSession::new(0);
    let (s, failure) = connecting.step(HaEvent::Heartbeat { slave_offset: 0 }, 1, side);
    assert_eq!((s.state, failure), (HaState::Disconnected, Some(StoreError::Disconnected)));
    let (s, failure) = connecting.step(HaEvent::Closed, 1, side);
    assert_eq!((s.state, failure), (HaState::Disconnected, Some(StoreError::Disconnected)));
    let (s, failure) = serving(50, 10).step(HaEvent::Heartbeat { slave_offset: 51 }, 1, side);
    assert_eq!((s.state, failure), (HaState::Disconnected, Some(StoreError::OffsetOutOfRange)));
    let (s, failure) = serving(50, 10).step(HaEvent::Connected, 1, side);
    assert_eq!((s.state, failure), (HaState::Disconnected, Some(StoreError::Disconnected)));
}

#[test]
fn frames_respect_batch_size_and_allowance() {
    let mut session = serving(100, 100);
    assert_eq!(session.next_frame(1_000, 0, 10), None);
    assert_eq!(session.next_frame(1_000, 10, 0), None);
    assert_eq!(session.next_frame(100, 10, 10), None);
    assert_eq!(
        session.next_frame(1_000, 300, 200),
        Some(FrameHeader { physical_offset: 100, body_length: 200 })
    );
    assert_eq!(session.slave_request_offset, 300);
    let mut closed = HaSession::new(0);
    assert_eq!(closed.next_frame(1_000, 10, 10), None);
}

#[test]
fn flow_monitor_limits_bytes_per_second() {
    let mut monitor = FlowMonitor::new(1_000);
    assert_eq!(monitor.allowance(1_000, true, 500), 500);
    monitor.record(300);
    assert_eq!(monitor.allowance(1_500, true, 500), 200);
    monitor.record(300);
    assert_eq!(monitor.allowance(1_999, true, 500), 0);
    assert_eq!(monitor.allowance(1_999, false, 500), u64::MAX);
    assert_eq!(monitor.allowance(2_000, true, 500), 500);
    assert_eq!(monitor, FlowMonitor { window_start_ms: 2_000, transferred: 0 });
    assert_eq!(monitor.allowance(10, true, 500), 500);
    assert_eq!(monitor.window_start_ms, 10);
}

#[test]
fn append_waits_for_both_of_two_slaves() {
    let request = GroupCommitRequest::new(1, 900, 100, 0, 3_000);
    let max_gap = 10_000;
    let behind = [serving(1_000, 1_000), serving(1_000, 999)];
    assert_eq!(count_confirmations(&behind, 1_000, 1_000, max_gap), 1);
    assert_eq!(check_replication(&behind, &request, 1_000, max_gap, 2, 10), WaitStatus::Pending);
    assert_eq!(check_replication(&behind, &request, 1_000, max_gap, 2, 3_000), WaitStatus::TimedOut);
    assert_eq!(check_replication(&behind, &request, 1_000, max_gap, 1, 10), WaitStatus::Done);
    let both = [serving(1_000, 1_000), serving(1_000, 1_000)];
    assert_eq!(check_replication(&both, &request, 1_000, max_gap, 2, 3_000), WaitStatus::Done);
    assert_eq!(check_replication(&both, &request, 1_000, max_gap, 3, 10), WaitStatus::Pending);
    assert_eq!(check_replication(&[], &request, 1_000, max_gap, 0, 10), WaitStatus::Done);
}

#[test]
fn slave_that_lags_too_far_does_not_count() {
    let sessions = [serving(5_000, 4_000), serving(5_000, 1_000)];
    assert!(sessions[0].in_sync(5_000, 1_000));
    assert!(!sessions[1].in_sync(5_000, 3_999));
    assert!(sessions[1].in_sync(5_000, 4_000));
    assert_eq!(count_confirmations(&sessions, 500, 5_000, 1_000), 1);
    assert_eq!(count_confirmations(&sessions, 500, 5_000, 4_000), 2);
    let mut gone = sessions[0];
    gone.state = HaState::Disconnected;
    assert!(!gone.in_sync(5_000, u64::MAX));
}

#[test]
fn slave_takes_frames_only_at_its_end() {
    let mut slave = CommitLog::new(0, 64, 4, 64, false).unwrap();
    let header = |physical_offset: u64, body_length: u32| FrameHeader { physical_offset, body_length };
    assert_eq!(apply_frame(&mut slave, header(1, 3), &[1, 2, 3]), Err(StoreError::OffsetOutOfRange));
    assert_eq!(apply_frame(&mut slave, header(0, 2), &[1, 2, 3]), Err(StoreError::Corrupted));
    assert_eq!(apply_frame(&mut slave, header(0, 3), &[1, 2, 3]), Ok(3));
    assert_eq!(apply_frame(&mut slave, header(0, 3), &[1, 2, 3]), Err(StoreError::OffsetOutOfRange));
    assert_eq!(apply_frame(&mut slave, header(4, 1), &[9]), Err(StoreError::OffsetOutOfRange));
    assert_eq!(apply_frame(&mut slave, header(3, 100), &[7; 100]), Ok(103));
    assert_eq!(slave.segment_count(), 2);
    assert_eq!(slave.get_message(0, 4).unwrap(), vec![1, 2, 3, 7]);
    assert_eq!(apply_frame(&mut slave, header(103, 200), &[8; 200]), Err(StoreError::DiskFull));
    assert_eq!(slave.max_offset(), 256);
    assert_eq!(slave.get_message(103, 153).unwrap(), vec![8; 153]);
    assert_eq!(apply_frame(&mut slave, header(256, 0), &[]), Ok(256));
}

#[test]
fn reconnect_neither_repeats_nor_drops_bytes() {
    let mut log = CommitLog::new(0, 256, 16, 256, false).unwrap();
    for i in 0..12u32 {
        log.append_message(&message(i % 2, 30 + i as usize, i as u8)).unwrap();
    }
    let end = log.max_offset();
    let side = master(log.min_offset(), end);
    let mut slave = CommitLog::new(0, 256, 16, 256, false).unwrap();
    let mut session = HaSession::new(0)
        .step(HaEvent::Connected, 0, side)
        .0
        .step(HaEvent::Handshake { slave_max_offset: 0 }, 0, side)
        .0;
    for _ in 0..3 {
        let frame = session.next_frame(end, 100, u64::MAX).unwrap();
        let body = log.get_message(frame.physical_offset, frame.body_length as usize).unwrap();
        assert_eq!(apply_frame(&mut slave, frame, &body), Ok(frame.physical_offset + 100));
    }
    let lost = session.next_frame(end, 100, u64::MAX).unwrap();
    assert_eq!(lost.physical_offset, 300);
    let stale = session.next_frame(end, 100, u64::MAX).unwrap();
    let body = log.get_message(stale.physical_offset, 100).unwrap();
    assert_eq!(apply_frame(&mut slave, stale, &body), Err(StoreError::OffsetOutOfRange));
    assert_eq!(slave.max_offset(), 300);
    let mut session = HaSession::new(0)
        .step(HaEvent::Connected, 0, side)
        .0
        .step(HaEvent::Handshake { slave_max_offset: slave.max_offset() }, 0, side)
        .0;
    assert_eq!(session.slave_request_offset, 300);
    loop {
        match session.next_frame(end, 100, u64::MAX) {
            Some(frame) => {
                let body = log.get_message(frame.physical_offset, frame.body_length as usize).unwrap();
                assert!(apply_frame(&mut slave, frame, &body).is_ok());
            }
            None => break,
        }
    }
    assert_eq!(slave.max_offset(), end);
    assert_eq!(slave.segment_count(), log.segment_count());
    for k in 0..log.segment_count() {
        assert_eq!(slave.segment_image(k), log.segment_image(k));
    }
    let images: Vec<Vec<u8>> = (0..slave.segment_count()).map(|k| slave.segment_image(k).to_vec()).collect();
    let (_, outcome) = CommitLog::recover(&images, 0, 256, 16, 256, false, true).unwrap();
    assert_eq!(outcome.last_valid_offset, end);
}

#[test]
fn slave_shakes_hands_reports_and_reconnects() {
    let session = SlaveSession::new(0);
    assert_eq!(session.step(SlaveEvent::Tick, 10_000, 500, 5_000), (session, SlaveAction::Wait));
    let (session, action) = session.step(SlaveEvent::Connected, 10, 500, 5_000);
    assert_eq!(action, SlaveAction::SendHandshake { slave_max_offset: 500 });
    assert_eq!(session, SlaveSession { state: HaState::Transferring, last_report_ms: 10 });
    assert_eq!(session.step(SlaveEvent::Tick, 5_009, 500, 5_000).1, SlaveAction::Wait);
    let (session, action) = session.step(SlaveEvent::Tick, 5_010, 500, 5_000);
    assert_eq!(action, SlaveAction::SendHeartbeat { slave_offset: 500 });
    assert_eq!(session.last_report_ms, 5_010);
    let (session, action) = session.step(SlaveEvent::FrameApplied, 5_020, 700, 5_000);
    assert_eq!(action, SlaveAction::SendHeartbeat { slave_offset: 700 });
    assert_eq!(session.last_report_ms, 5_020);
    let (session, action) = session.step(SlaveEvent::FrameFailed, 5_030, 700, 5_000);
    assert_eq!(action, SlaveAction::Reconnect);
    assert_eq!(session, SlaveSession { state: HaState::Connecting, last_report_ms: 5_030 });
    let (session, action) = session.step(SlaveEvent::Connected, 5_040, 700, 5_000);
    assert_eq!(action, SlaveAction::SendHandshake { slave_max_offset: 700 });
    let (session, action) = session.step(SlaveEvent::Connected, 5_050, 700, 5_000);
    assert_eq!((session.state, action), (HaState::Connecting, SlaveAction::Reconnect));
    let (_, action) = session.step(SlaveEvent::Closed, 5_060, 700, 5_000);
    assert_eq!(action, SlaveAction::Reconnect);
}

#[test]
fn log_is_not_reclaimed_under_a_slave_that_is_served() {
    let mut gone = serving(10, 10);
    gone.state = HaState::Disconnected;
    let sessions = [serving(700, 600), serving(400, 100), gone];
    assert_eq!(reclaim_floor(&sessions, 1_000), 400);
    assert_eq!(reclaim_floor(&sessions, 300), 300);
    assert_eq!(reclaim_floor(&[], 300), 300);
    assert_eq!(reclaim_floor(&[gone], 300), 300);
}
