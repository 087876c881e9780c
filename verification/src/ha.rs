//! Replication of the commit log from a master to its slaves: the frames on
//! the wire, the master's view of one slave connection, and the count of
//! acknowledgements that releases a waiting append.
//!
//! Nothing here touches a socket. The caller hands in what arrived and when,
//! and performs what is decided.

use crate::codec::get_u32;
use crate::codec::get_u64;
use crate::codec::lemma_u32_round_trip;
use crate::codec::lemma_u64_round_trip;
use crate::codec::put_bytes;
use crate::codec::put_u32;
use crate::codec::put_u64;
use crate::codec::u32_bytes;
use crate::codec::u32_value;
use crate::codec::u64_bytes;
use crate::codec::u64_value;
use crate::commit_log::CommitLog;
use crate::commit_log::LogView;
use crate::error::StoreError;
use crate::flush::GroupCommitRequest;
use crate::flush::WaitStatus;
use crate::log_laws::lemma_append_raw;
use vstd::prelude::*;

verus! {

/// The width of a data frame's header: physical offset and body length.
pub const FRAME_HEADER_SIZE: usize = 12;

/// The width of a heartbeat: the slave's offset and a timestamp.
pub const HEARTBEAT_SIZE: usize = 16;

/// The width of a handshake: the slave's largest physical offset.
pub const HANDSHAKE_SIZE: usize = 8;

/// The header of a data frame.
#[derive(Clone, Copy, Debug, PartialEq, Eq, Structural)]
pub struct FrameHeader {
    /// Where in the log the body belongs.
    pub physical_offset: u64,
    /// How many bytes of the log follow the header.
    pub body_length: u32,
}

/// What a slave reports back.
#[derive(Clone, Copy, Debug, PartialEq, Eq, Structural)]
pub struct Heartbeat {
    /// The offset up to which the slave has persisted the log.
    pub slave_offset: u64,
    pub timestamp_ms: u64,
}

/// A data frame on the wire: offset, length of the body, body.
pub open spec fn frame_bytes(physical_offset: u64, body: Seq<u8>) -> Seq<u8>
    recommends
        body.len() <= u32::MAX,
{
    u64_bytes(physical_offset) + u32_bytes(body.len() as u32) + body
}

/// The frame header at `pos`.
pub open spec fn frame_header_at(bytes: Seq<u8>, pos: int) -> FrameHeader {
    FrameHeader {
        physical_offset: u64_value(bytes.subrange(pos, pos + 8)),
        body_length: u32_value(bytes.subrange(pos + 8, pos + 12)),
    }
}

/// Whether a whole frame, header and body, lies at `pos`.
pub open spec fn frame_complete_at(bytes: Seq<u8>, pos: int) -> bool {
    &&& 0 <= pos
    &&& pos + FRAME_HEADER_SIZE <= bytes.len()
    &&& pos + FRAME_HEADER_SIZE + frame_header_at(bytes, pos).body_length <= bytes.len()
}

/// The body of the frame at `pos`.
pub open spec fn frame_body_at(bytes: Seq<u8>, pos: int) -> Seq<u8> {
    bytes.subrange(
        pos + FRAME_HEADER_SIZE,
        pos + FRAME_HEADER_SIZE + frame_header_at(bytes, pos).body_length,
    )
}

/// A heartbeat on the wire.
pub open spec fn heartbeat_bytes(heartbeat: Heartbeat) -> Seq<u8> {
    u64_bytes(heartbeat.slave_offset) + u64_bytes(heartbeat.timestamp_ms)
}

/// The heartbeat at `pos`.
pub open spec fn heartbeat_at(bytes: Seq<u8>, pos: int) -> Heartbeat {
    Heartbeat {
        slave_offset: u64_value(bytes.subrange(pos, pos + 8)),
        timestamp_ms: u64_value(bytes.subrange(pos + 8, pos + 16)),
    }
}

/// A frame that was written is read back as it was, wherever it lies.
pub proof fn lemma_frame_round_trip(prefix: Seq<u8>, physical_offset: u64, body: Seq<u8>)
    requires
        body.len() <= u32::MAX,
    ensures
        ({
            let bytes = prefix + frame_bytes(physical_offset, body);
            let pos = prefix.len() as int;
            &&& frame_complete_at(bytes, pos)
            &&& frame_header_at(bytes, pos) == (FrameHeader {
                physical_offset,
                body_length: body.len() as u32,
            })
            &&& frame_body_at(bytes, pos) == body
        }),
{
    let bytes = prefix + frame_bytes(physical_offset, body);
    let pos = prefix.len() as int;
    lemma_u64_round_trip(physical_offset);
    lemma_u32_round_trip(body.len() as u32);
    assert(bytes.subrange(pos, pos + 8) =~= u64_bytes(physical_offset));
    assert(bytes.subrange(pos + 8, pos + 12) =~= u32_bytes(body.len() as u32));
    assert(bytes.subrange(pos + 12, pos + 12 + body.len()) =~= body);
}

/// A heartbeat that was written is read back as it was.
pub proof fn lemma_heartbeat_round_trip(heartbeat: Heartbeat)
    ensures
        heartbeat_bytes(heartbeat).len() == HEARTBEAT_SIZE,
        heartbeat_at(heartbeat_bytes(heartbeat), 0) == heartbeat,
{
    let bytes = heartbeat_bytes(heartbeat);
    lemma_u64_round_trip(heartbeat.slave_offset);
    lemma_u64_round_trip(heartbeat.timestamp_ms);
    assert(bytes.subrange(0, 8) =~= u64_bytes(heartbeat.slave_offset));
    assert(bytes.subrange(8, 16) =~= u64_bytes(heartbeat.timestamp_ms));
}

/// Writes a data frame. There is none for a body longer than the length
/// field can say.
pub fn encode_frame(physical_offset: u64, body: &[u8]) -> (frame: Option<Vec<u8>>)
    ensures
        frame is Some <==> body@.len() <= u32::MAX,
        frame matches Some(bytes) ==> bytes@ == frame_bytes(physical_offset, body@),
{
    if body.len() > 0xFFFF_FFFF {
        return None;
    }
    let mut out: Vec<u8> = Vec::new();
    put_u64(&mut out, physical_offset);
    put_u32(&mut out, body.len() as u32);
    put_bytes(&mut out, body);
    Some(out)
}

/// Reads the header of the frame at `pos`, if the whole frame lies there.
/// A frame of which only a part has arrived is no frame.
pub fn decode_frame(data: &[u8], pos: usize) -> (header: Option<FrameHeader>)
    ensures
        header is Some <==> frame_complete_at(data@, pos as int),
        header matches Some(h) ==> h == frame_header_at(data@, pos as int),
{
    if data.len() < FRAME_HEADER_SIZE || pos > data.len() - FRAME_HEADER_SIZE {
        return None;
    }
    let physical_offset = get_u64(data, pos);
    let body_length = get_u32(data, pos + 8);
    if body_length as u64 > (data.len() - FRAME_HEADER_SIZE - pos) as u64 {
        return None;
    }
    Some(FrameHeader { physical_offset, body_length })
}

/// Writes a heartbeat.
pub fn encode_heartbeat(heartbeat: Heartbeat) -> (bytes: Vec<u8>)
    ensures
        bytes@ == heartbeat_bytes(heartbeat),
        bytes@.len() == HEARTBEAT_SIZE,
{
    let mut out: Vec<u8> = Vec::new();
    put_u64(&mut out, heartbeat.slave_offset);
    put_u64(&mut out, heartbeat.timestamp_ms);
    proof {
        lemma_heartbeat_round_trip(heartbeat);
    }
    out
}

/// Reads the heartbeat at `pos`, if 16 bytes lie there.
pub fn decode_heartbeat(data: &[u8], pos: usize) -> (heartbeat: Option<Heartbeat>)
    ensures
        heartbeat is Some <==> pos + HEARTBEAT_SIZE <= data@.len(),
        heartbeat matches Some(h) ==> h == heartbeat_at(data@, pos as int),
{
    if data.len() < HEARTBEAT_SIZE || pos > data.len() - HEARTBEAT_SIZE {
        return None;
    }
    Some(Heartbeat { slave_offset: get_u64(data, pos), timestamp_ms: get_u64(data, pos + 8) })
}

/// Writes a handshake: the slave's largest physical offset.
pub fn encode_handshake(slave_max_offset: u64) -> (bytes: Vec<u8>)
    ensures
        bytes@ == u64_bytes(slave_max_offset),
        bytes@.len() == HANDSHAKE_SIZE,
{
    let mut out: Vec<u8> = Vec::new();
    put_u64(&mut out, slave_max_offset);
    proof {
        lemma_u64_round_trip(slave_max_offset);
    }
    out
}

/// Reads the handshake at `pos`, if 8 bytes lie there.
pub fn decode_handshake(data: &[u8], pos: usize) -> (slave_max_offset: Option<u64>)
    ensures
        slave_max_offset is Some <==> pos + HANDSHAKE_SIZE <= data@.len(),
        slave_max_offset matches Some(o) ==> o == u64_value(data@.subrange(pos as int, pos + 8)),
{
    if data.len() < HANDSHAKE_SIZE || pos > data.len() - HANDSHAKE_SIZE {
        return None;
    }
    Some(get_u64(data, pos))
}

/// Where a slave connection stands.
#[derive(Clone, Copy, Debug, PartialEq, Eq, Structural)]
pub enum HaState {
    Connecting,
    Handshake,
    Transferring,
    Disconnected,
}

/// What the master knows of one slave connection. It lives as long as the
/// connection; a slave that comes back gets a new one.
#[derive(Clone, Copy, Debug, PartialEq, Eq, Structural)]
pub struct HaSession {
    pub state: HaState,
    /// The offset from which the next frame is sent.
    pub slave_request_offset: u64,
    /// The largest offset that the slave has confirmed as persisted.
    pub slave_ack_offset: u64,
    /// When the slave was last heard of.
    pub last_heartbeat_ms: u64,
}

/// What happened on a slave connection.
#[derive(Clone, Copy, Debug, PartialEq, Eq, Structural)]
pub enum HaEvent {
    /// The connection stands.
    Connected,
    /// The slave named its largest physical offset.
    Handshake { slave_max_offset: u64 },
    /// The slave reported the offset up to which it has persisted the log.
    Heartbeat { slave_offset: u64 },
    /// Time has passed.
    Tick,
    /// The connection is gone.
    Closed,
}

/// What the master's log offers to a slave, and how patient the master is.
#[derive(Clone, Copy, Debug, PartialEq, Eq, Structural)]
pub struct MasterSide {
    /// The first offset that the master's log still holds.
    pub min_offset: u64,
    /// The end of the master's log.
    pub max_offset: u64,
    /// After this long without a word from the slave the session is closed.
    pub housekeeping_interval_ms: u64,
}

impl HaSession {
    /// While bytes are transferred, the slave has confirmed no more than was
    /// sent to it.
    pub open spec fn wf(self) -> bool {
        self.state == HaState::Transferring ==> self.slave_ack_offset
            <= self.slave_request_offset
    }

    /// Whether the slave may start where it says it is: a slave without any
    /// log starts at the master's first offset; any other slave has to be
    /// inside what the master holds, so that it sees neither a gap nor bytes
    /// that the master does not have.
    pub open spec fn handshake_ok(slave_max_offset: u64, master: MasterSide) -> bool {
        slave_max_offset == 0 || master.min_offset <= slave_max_offset <= master.max_offset
    }

    /// The offset from which a slave is served after its handshake.
    pub open spec fn start_offset(slave_max_offset: u64, master: MasterSide) -> u64 {
        if slave_max_offset == 0 {
            master.min_offset
        } else {
            slave_max_offset
        }
    }

    /// The session after `event` at `now_ms`. An event that the state does
    /// not expect closes the session.
    pub open spec fn spec_step(self, event: HaEvent, now_ms: u64, master: MasterSide) -> HaSession {
        let closed = HaSession { state: HaState::Disconnected, ..self };
        match (self.state, event) {
            (HaState::Disconnected, _) => self,
            (_, HaEvent::Closed) => closed,
            (HaState::Connecting, HaEvent::Connected) => HaSession {
                state: HaState::Handshake,
                last_heartbeat_ms: now_ms,
                ..self
            },
            (HaState::Handshake, HaEvent::Handshake { slave_max_offset }) => if Self::handshake_ok(
                slave_max_offset,
                master,
            ) {
                HaSession {
                    state: HaState::Transferring,
                    slave_request_offset: Self::start_offset(slave_max_offset, master),
                    slave_ack_offset: slave_max_offset,
                    last_heartbeat_ms: now_ms,
                }
            } else {
                closed
            },
            (HaState::Transferring, HaEvent::Heartbeat { slave_offset }) => if slave_offset
                <= self.slave_request_offset {
                HaSession {
                    slave_ack_offset: if slave_offset > self.slave_ack_offset {
                        slave_offset
                    } else {
                        self.slave_ack_offset
                    },
                    last_heartbeat_ms: now_ms,
                    ..self
                }
            } else {
                closed
            },
            (_, HaEvent::Tick) => if now_ms >= self.last_heartbeat_ms && now_ms
                - self.last_heartbeat_ms > master.housekeeping_interval_ms {
                closed
            } else {
                self
            },
            _ => closed,
        }
    }

    /// The failure with which the session was closed by `event`, if it was.
    pub open spec fn spec_failure(self, event: HaEvent, now_ms: u64, master: MasterSide) -> Option<
        StoreError,
    > {
        if self.state != HaState::Disconnected && self.spec_step(event, now_ms, master).state
            == HaState::Disconnected {
            match (self.state, event) {
                (HaState::Handshake, HaEvent::Handshake { .. }) => Some(
                    StoreError::OffsetOutOfRange,
                ),
                (HaState::Transferring, HaEvent::Heartbeat { .. }) => Some(
                    StoreError::OffsetOutOfRange,
                ),
                _ => Some(StoreError::Disconnected),
            }
        } else {
            None
        }
    }

    /// The byte range that the next frame carries: from the request offset
    /// on, as many bytes as the master has, the batch size allows and the
    /// flow control leaves. None where nothing is to be sent.
    pub open spec fn spec_next_frame(self, master_max: u64, batch_size: u32, allowance: u64) -> Option<
        FrameHeader,
    > {
        if self.state == HaState::Transferring && self.slave_request_offset < master_max
            && batch_size > 0 && allowance > 0 {
            let available = master_max - self.slave_request_offset;
            let by_batch = if available < batch_size {
                available
            } else {
                batch_size as int
            };
            let length = if by_batch < allowance {
                by_batch
            } else {
                allowance as int
            };
            Some(
                FrameHeader {
                    physical_offset: self.slave_request_offset,
                    body_length: length as u32,
                },
            )
        } else {
            None
        }
    }

    /// A session for a connection that is being set up.
    pub fn new(now_ms: u64) -> (session: Self)
        ensures
            session == (HaSession {
                state: HaState::Connecting,
                slave_request_offset: 0,
                slave_ack_offset: 0,
                last_heartbeat_ms: now_ms,
            }),
            session.wf(),
    {
        HaSession {
            state: HaState::Connecting,
            slave_request_offset: 0,
            slave_ack_offset: 0,
            last_heartbeat_ms: now_ms,
        }
    }

    /// Takes `event` at `now_ms`: returns the session as it then stands and,
    /// if the event closed it, why. After a close the slave has to connect
    /// and shake hands again; nothing is kept for it.
    pub fn step(self, event: HaEvent, now_ms: u64, master: MasterSide) -> (result: (
        HaSession,
        Option<StoreError>,
    ))
        requires
            self.wf(),
        ensures
            result.0 == self.spec_step(event, now_ms, master),
            result.1 == self.spec_failure(event, now_ms, master),
            result.0.wf(),
    {
        let closed = HaSession { state: HaState::Disconnected, ..self };
        match self.state {
            HaState::Disconnected => (self, None),
            HaState::Connecting => match event {
                HaEvent::Connected => (
                    HaSession { state: HaState::Handshake, last_heartbeat_ms: now_ms, ..self },
                    None,
                ),
                HaEvent::Tick => self.tick(now_ms, master),
                _ => (closed, Some(StoreError::Disconnected)),
            },
            HaState::Handshake => match event {
                HaEvent::Handshake { slave_max_offset } => {
                    if slave_max_offset == 0 || (master.min_offset <= slave_max_offset
                        && slave_max_offset <= master.max_offset) {
                        let start = if slave_max_offset == 0 {
                            master.min_offset
                        } else {
                            slave_max_offset
                        };
                        (
                            HaSession {
                                state: HaState::Transferring,
                                slave_request_offset: start,
                                slave_ack_offset: slave_max_offset,
                                last_heartbeat_ms: now_ms,
                            },
                            None,
                        )
                    } else {
                        (closed, Some(StoreError::OffsetOutOfRange))
                    }
                },
                HaEvent::Tick => self.tick(now_ms, master),
                _ => (closed, Some(StoreError::Disconnected)),
            },
            HaState::Transferring => match event {
                HaEvent::Heartbeat { slave_offset } => {
                    if slave_offset <= self.slave_request_offset {
                        let ack = if slave_offset > self.slave_ack_offset {
                            slave_offset
                        } else {
                            self.slave_ack_offset
                        };
                        (
                            HaSession { slave_ack_offset: ack, last_heartbeat_ms: now_ms, ..self },
                            None,
                        )
                    } else {
                        (closed, Some(StoreError::OffsetOutOfRange))
                    }
                },
                HaEvent::Tick => self.tick(now_ms, master),
                _ => (closed, Some(StoreError::Disconnected)),
            },
        }
    }

    fn tick(self, now_ms: u64, master: MasterSide) -> (result: (HaSession, Option<StoreError>))
        requires
            self.state != HaState::Disconnected,
            self.wf(),
        ensures
            result.0 == self.spec_step(HaEvent::Tick, now_ms, master),
            result.1 == self.spec_failure(HaEvent::Tick, now_ms, master),
            result.0.wf(),
    {
        if now_ms >= self.last_heartbeat_ms && now_ms - self.last_heartbeat_ms
            > master.housekeeping_interval_ms {
            (HaSession { state: HaState::Disconnected, ..self }, Some(StoreError::Disconnected))
        } else {
            (self, None)
        }
    }

    /// Plans the next frame for the slave and moves the request offset
    /// behind it, so that frames follow each other without a gap and without
    /// an overlap.
    pub fn next_frame(&mut self, master_max: u64, batch_size: u32, allowance: u64) -> (frame:
        Option<FrameHeader>)
        requires
            old(self).wf(),
        ensures
            final(self).wf(),
            frame == old(self).spec_next_frame(master_max, batch_size, allowance),
            frame matches Some(f) ==> {
                &&& f.physical_offset == old(self).slave_request_offset
                &&& f.body_length >= 1
                &&& f.physical_offset + f.body_length <= master_max
                &&& *final(self) == (HaSession {
                    slave_request_offset: (f.physical_offset + f.body_length) as u64,
                    ..*old(self)
                })
            },
            frame is None ==> *final(self) == *old(self),
    {
        if self.state != HaState::Transferring || self.slave_request_offset >= master_max
            || batch_size == 0 || allowance == 0 {
            return None;
        }
        let available: u64 = master_max - self.slave_request_offset;
        let by_batch: u64 = if available < batch_size as u64 {
            available
        } else {
            batch_size as u64
        };
        let length: u64 = if by_batch < allowance {
            by_batch
        } else {
            allowance
        };
        let frame = FrameHeader {
            physical_offset: self.slave_request_offset,
            body_length: length as u32,
        };
        self.slave_request_offset = self.slave_request_offset + length;
        Some(frame)
    }

    /// Whether the slave counts for the acknowledgement of appends: it is
    /// being served and lies no more than `max_gap` bytes behind the master.
    pub open spec fn spec_in_sync(self, master_max: u64, max_gap: u64) -> bool {
        self.state == HaState::Transferring && master_max <= self.slave_ack_offset + max_gap
    }

    pub fn in_sync(&self, master_max: u64, max_gap: u64) -> (yes: bool)
        ensures
            yes == self.spec_in_sync(master_max, max_gap),
    {
        self.state == HaState::Transferring && master_max as u128 <= self.slave_ack_offset as u128
            + max_gap as u128
    }

    /// Whether the slave counts and has confirmed the log up to `offset`.
    pub open spec fn spec_confirms(self, offset: u64, master_max: u64, max_gap: u64) -> bool {
        self.spec_in_sync(master_max, max_gap) && self.slave_ack_offset >= offset
    }
}

/// How many of the first `n` sessions count and have confirmed `offset`.
pub open spec fn confirmations(
    sessions: Seq<HaSession>,
    n: int,
    offset: u64,
    master_max: u64,
    max_gap: u64,
) -> nat
    decreases n,
{
    if n <= 0 || n > sessions.len() {
        0
    } else {
        confirmations(sessions, n - 1, offset, master_max, max_gap) + if sessions[n
            - 1].spec_confirms(offset, master_max, max_gap) {
            1nat
        } else {
            0nat
        }
    }
}

/// Where an append stands that waits for its replication: done as soon as
/// `min_in_sync_replicas` in-sync slaves have confirmed the log up to the
/// end of its record, timed out at its deadline, pending else.
pub open spec fn replication_status(
    sessions: Seq<HaSession>,
    request: GroupCommitRequest,
    master_max: u64,
    max_gap: u64,
    min_in_sync_replicas: nat,
    now_ms: u64,
) -> WaitStatus {
    if confirmations(sessions, sessions.len() as int, request.next_offset, master_max, max_gap)
        >= min_in_sync_replicas {
        WaitStatus::Done
    } else if now_ms >= request.deadline_ms {
        WaitStatus::TimedOut
    } else {
        WaitStatus::Pending
    }
}

/// No more slaves confirm than there are.
pub proof fn lemma_confirmations_bound(
    sessions: Seq<HaSession>,
    n: int,
    offset: u64,
    master_max: u64,
    max_gap: u64,
)
    requires
        0 <= n <= sessions.len(),
    ensures
        confirmations(sessions, n, offset, master_max, max_gap) <= n,
    decreases n,
{
    if n > 0 {
        lemma_confirmations_bound(sessions, n - 1, offset, master_max, max_gap);
    }
}

/// Where as many slaves have to confirm as are connected, every one of them
/// has confirmed: if the first `n` sessions hold `n` confirmations of
/// `offset`, each of them is in sync and has acknowledged `offset` or more.
pub proof fn lemma_full_quorum_means_all(
    sessions: Seq<HaSession>,
    n: int,
    offset: u64,
    master_max: u64,
    max_gap: u64,
)
    requires
        0 <= n <= sessions.len(),
        confirmations(sessions, n, offset, master_max, max_gap) >= n,
    ensures
        forall|i: int|
            0 <= i < n ==> (#[trigger] sessions[i]).spec_in_sync(master_max, max_gap)
                && sessions[i].slave_ack_offset >= offset,
    decreases n,
{
    if n > 0 {
        lemma_confirmations_bound(sessions, n - 1, offset, master_max, max_gap);
        lemma_full_quorum_means_all(sessions, n - 1, offset, master_max, max_gap);
    }
}

/// Counts the sessions that are in sync and have confirmed `offset`.
pub fn count_confirmations(sessions: &[HaSession], offset: u64, master_max: u64, max_gap: u64) -> (count:
    usize)
    ensures
        count == confirmations(sessions@, sessions@.len() as int, offset, master_max, max_gap),
{
    let n = sessions.len();
    let mut count: usize = 0;
    let mut i: usize = 0;
    while i < n
        invariant
            i <= n,
            n == sessions@.len(),
            count == confirmations(sessions@, i as int, offset, master_max, max_gap),
            count <= i,
        decreases n - i,
    {
        if sessions[i].in_sync(master_max, max_gap) && sessions[i].slave_ack_offset >= offset {
            count += 1;
        }
        i += 1;
    }
    count
}

/// Decides where an append stands that waits for its replication.
pub fn check_replication(
    sessions: &[HaSession],
    request: &GroupCommitRequest,
    master_max: u64,
    max_gap: u64,
    min_in_sync_replicas: usize,
    now_ms: u64,
) -> (status: WaitStatus)
    ensures
        status == replication_status(
            sessions@,
            *request,
            master_max,
            max_gap,
            min_in_sync_replicas as nat,
            now_ms,
        ),
        status == WaitStatus::Done && min_in_sync_replicas >= sessions@.len() ==> forall|i: int|
            0 <= i < sessions@.len() ==> (#[trigger] sessions@[i]).slave_ack_offset
                >= request.next_offset,
{
    let count = count_confirmations(sessions, request.next_offset, master_max, max_gap);
    if count >= min_in_sync_replicas {
        proof {
            if min_in_sync_replicas >= sessions@.len() {
                lemma_full_quorum_means_all(
                    sessions@,
                    sessions@.len() as int,
                    request.next_offset,
                    master_max,
                    max_gap,
                );
            }
        }
        WaitStatus::Done
    } else if now_ms >= request.deadline_ms {
        WaitStatus::TimedOut
    } else {
        WaitStatus::Pending
    }
}

/// What a slave does next on its connection to the master.
#[derive(Clone, Copy, Debug, PartialEq, Eq, Structural)]
pub enum SlaveAction {
    /// Nothing is due.
    Wait,
    /// Tell the master where the slave's log ends.
    SendHandshake { slave_max_offset: u64 },
    /// Report the offset up to which the log is persisted.
    SendHeartbeat { slave_offset: u64 },
    /// Give the connection up and set up a new one.
    Reconnect,
}

/// What happened on a slave's connection to the master.
#[derive(Clone, Copy, Debug, PartialEq, Eq, Structural)]
pub enum SlaveEvent {
    /// The connection stands.
    Connected,
    /// A frame was taken into the log.
    FrameApplied,
    /// A frame was turned away, or a part of one was all that came.
    FrameFailed,
    /// Time has passed.
    Tick,
    /// The connection is gone.
    Closed,
}

/// A slave's view of its connection to the master.
#[derive(Clone, Copy, Debug, PartialEq, Eq, Structural)]
pub struct SlaveSession {
    pub state: HaState,
    /// When the slave last reported to the master.
    pub last_report_ms: u64,
}

impl SlaveSession {
    /// Whether a heartbeat is due at `now_ms`.
    pub open spec fn report_due(self, now_ms: u64, heartbeat_interval_ms: u64) -> bool {
        now_ms >= self.last_report_ms + heartbeat_interval_ms
    }

    /// The session after `event` at `now_ms`, and what the slave is to do;
    /// `log_end` is the end of the slave's log, up to which it is persisted.
    /// A frame that failed gives the connection up: the slave shakes hands
    /// again from the end of its log, so that nothing is taken twice and
    /// nothing is skipped.
    pub open spec fn spec_step(
        self,
        event: SlaveEvent,
        now_ms: u64,
        log_end: u64,
        heartbeat_interval_ms: u64,
    ) -> (SlaveSession, SlaveAction) {
        let fresh = SlaveSession { state: HaState::Connecting, last_report_ms: now_ms };
        match (self.state, event) {
            (_, SlaveEvent::Closed) => (fresh, SlaveAction::Reconnect),
            (_, SlaveEvent::FrameFailed) => (fresh, SlaveAction::Reconnect),
            (HaState::Disconnected, _) => (fresh, SlaveAction::Reconnect),
            (HaState::Connecting, SlaveEvent::Connected) => (
                SlaveSession { state: HaState::Transferring, last_report_ms: now_ms },
                SlaveAction::SendHandshake { slave_max_offset: log_end },
            ),
            (HaState::Connecting, _) => (self, SlaveAction::Wait),
            (_, SlaveEvent::Connected) => (fresh, SlaveAction::Reconnect),
            (_, SlaveEvent::FrameApplied) => (
                SlaveSession { state: HaState::Transferring, last_report_ms: now_ms },
                SlaveAction::SendHeartbeat { slave_offset: log_end },
            ),
            (_, SlaveEvent::Tick) => if self.report_due(now_ms, heartbeat_interval_ms) {
                (
                    SlaveSession { last_report_ms: now_ms, ..self },
                    SlaveAction::SendHeartbeat { slave_offset: log_end },
                )
            } else {
                (self, SlaveAction::Wait)
            },
        }
    }

    /// A session for a connection that is being set up.
    pub fn new(now_ms: u64) -> (session: Self)
        ensures
            session == (SlaveSession { state: HaState::Connecting, last_report_ms: now_ms }),
    {
        SlaveSession { state: HaState::Connecting, last_report_ms: now_ms }
    }

    /// Takes `event` at `now_ms`: returns the session as it then stands and
    /// what the slave is to do.
    pub fn step(self, event: SlaveEvent, now_ms: u64, log_end: u64, heartbeat_interval_ms: u64) -> (result:
        (SlaveSession, SlaveAction))
        ensures
            result == self.spec_step(event, now_ms, log_end, heartbeat_interval_ms),
            result.1 matches SlaveAction::SendHandshake { slave_max_offset } ==> slave_max_offset
                == log_end,
            result.1 matches SlaveAction::SendHeartbeat { slave_offset } ==> slave_offset
                == log_end,
    {
        let fresh = SlaveSession { state: HaState::Connecting, last_report_ms: now_ms };
        match event {
            SlaveEvent::Closed => (fresh, SlaveAction::Reconnect),
            SlaveEvent::FrameFailed => (fresh, SlaveAction::Reconnect),
            SlaveEvent::Connected => match self.state {
                HaState::Connecting => (
                    SlaveSession { state: HaState::Transferring, last_report_ms: now_ms },
                    SlaveAction::SendHandshake { slave_max_offset: log_end },
                ),
                _ => (fresh, SlaveAction::Reconnect),
            },
            SlaveEvent::FrameApplied => match self.state {
                HaState::Disconnected => (fresh, SlaveAction::Reconnect),
                HaState::Connecting => (self, SlaveAction::Wait),
                _ => (
                    SlaveSession { state: HaState::Transferring, last_report_ms: now_ms },
                    SlaveAction::SendHeartbeat { slave_offset: log_end },
                ),
            },
            SlaveEvent::Tick => match self.state {
                HaState::Disconnected => (fresh, SlaveAction::Reconnect),
                HaState::Connecting => (self, SlaveAction::Wait),
                _ => {
                    if now_ms as u128 >= self.last_report_ms as u128 + heartbeat_interval_ms as u128 {
                        (
                            SlaveSession { last_report_ms: now_ms, ..self },
                            SlaveAction::SendHeartbeat { slave_offset: log_end },
                        )
                    } else {
                        (self, SlaveAction::Wait)
                    }
                },
            },
        }
    }
}

/// Whether a slave's log is a copy of the master's as far as it goes: it
/// ends at or below the master's end, and holds the master's byte at every
/// offset that both hold.
pub open spec fn mirrors(slave: LogView, master: LogView) -> bool {
    &&& slave.max_offset() <= master.max_offset()
    &&& forall|o: int|
        slave.min_offset() <= o < slave.max_offset() && master.min_offset() <= o
            ==> #[trigger] slave.byte_at(o) == master.byte_at(o)
}

/// Replication neither drops nor repeats a byte: a slave that is a copy of
/// the master as far as it goes, and is handed the master's next bytes from
/// its own end on, is again a copy of the master as far as it goes.
pub proof fn lemma_frame_keeps_mirror(slave: LogView, master: LogView, len: int)
    requires
        slave.wf(),
        master.wf(),
        mirrors(slave, master),
        0 <= len,
        master.min_offset() <= slave.max_offset(),
        slave.max_offset() + len <= master.max_offset(),
    ensures
        mirrors(slave.append_raw(master.read(slave.max_offset() as int, len)), master),
        slave.append_raw(master.read(slave.max_offset() as int, len)).max_offset()
            == slave.max_offset() + slave.raw_stored(
            master.read(slave.max_offset() as int, len),
        ),
{
    let bytes = master.read(slave.max_offset() as int, len);
    let after = slave.append_raw(bytes);
    lemma_append_raw(slave, bytes);
    assert forall|o: int|
        after.min_offset() <= o < after.max_offset() && master.min_offset()
            <= o implies #[trigger] after.byte_at(o) == master.byte_at(o) by {
        if o < slave.max_offset() {
            assert(after.byte_at(o) == slave.byte_at(o));
        } else {
            let i = o - slave.max_offset();
            assert(after.byte_at(slave.max_offset() + i) == bytes[i]);
        }
    }
}

/// Takes a data frame into a slave's log. The frame has to start exactly
/// where the log ends: one that would leave a gap or repeat bytes is turned
/// away with `OffsetOutOfRange`, and one whose body is not as long as its
/// header says with `Corrupted`, both without a change; after either the
/// slave has to shake hands again. Else the body is written at the end of
/// the log, and the new end is returned if all of it was stored, `DiskFull`
/// if the log could not grow far enough.
pub fn apply_frame(log: &mut CommitLog, header: FrameHeader, body: &[u8]) -> (result: Result<
    u64,
    StoreError,
>)
    requires
        old(log).wf(),
    ensures
        final(log).wf(),
        header.physical_offset != old(log)@.max_offset() ==> result == Err::<u64, StoreError>(
            StoreError::OffsetOutOfRange,
        ) && final(log)@ == old(log)@,
        header.physical_offset == old(log)@.max_offset() && header.body_length != body@.len()
            ==> result == Err::<u64, StoreError>(StoreError::Corrupted) && final(log)@ == old(
            log,
        )@,
        header.physical_offset == old(log)@.max_offset() && header.body_length == body@.len() ==> {
            &&& final(log)@ == old(log)@.append_raw(body@)
            &&& final(log)@.max_offset() == old(log)@.max_offset() + old(log)@.raw_stored(body@)
            &&& old(log)@.raw_stored(body@) == body@.len() ==> result == Ok::<u64, StoreError>(
                final(log)@.max_offset() as u64,
            )
            &&& old(log)@.raw_stored(body@) < body@.len() ==> result == Err::<u64, StoreError>(
                StoreError::DiskFull,
            )
        },
{
    if header.physical_offset != log.max_offset() {
        return Err(StoreError::OffsetOutOfRange);
    }
    if header.body_length as u64 != body.len() as u64 {
        return Err(StoreError::Corrupted);
    }
    let stored = log.append_raw(body);
    if stored < body.len() {
        Err(StoreError::DiskFull)
    } else {
        Ok(log.max_offset())
    }
}

/// The offset below which the log may be reclaimed when the first `n`
/// sessions are looked at: `limit`, or the smallest offset that a slave that
/// is being served still waits for, if that is smaller.
pub open spec fn replication_floor(sessions: Seq<HaSession>, n: int, limit: u64) -> u64
    decreases n,
{
    if n <= 0 || n > sessions.len() {
        limit
    } else {
        let rest = replication_floor(sessions, n - 1, limit);
        if sessions[n - 1].state == HaState::Transferring && sessions[n - 1].slave_request_offset
            < rest {
            sessions[n - 1].slave_request_offset
        } else {
            rest
        }
    }
}

/// Finds the offset below which the log may be reclaimed: `limit`, lowered
/// to what the slaves that are being served still wait for.
pub fn reclaim_floor(sessions: &[HaSession], limit: u64) -> (floor: u64)
    ensures
        floor == replication_floor(sessions@, sessions@.len() as int, limit),
        floor <= limit,
        forall|i: int|
            0 <= i < sessions@.len() && (#[trigger] sessions@[i]).state == HaState::Transferring
                ==> floor <= sessions@[i].slave_request_offset,
{
    let n = sessions.len();
    let mut floor: u64 = limit;
    let mut i: usize = 0;
    while i < n
        invariant
            i <= n,
            n == sessions@.len(),
            floor == replication_floor(sessions@, i as int, limit),
            floor <= limit,
            forall|j: int|
                0 <= j < i && (#[trigger] sessions@[j]).state == HaState::Transferring ==> floor
                    <= sessions@[j].slave_request_offset,
        decreases n - i,
    {
        let session = sessions[i];
        let serving = match session.state {
            HaState::Transferring => true,
            _ => false,
        };
        if serving && session.slave_request_offset < floor {
            floor = session.slave_request_offset;
        }
        i += 1;
    }
    floor
}

/// How many bytes were sent in the running second.
#[derive(Clone, Copy, Debug, PartialEq, Eq, Structural)]
pub struct FlowMonitor {
    /// When the running second began.
    pub window_start_ms: u64,
    /// How many bytes were sent since.
    pub transferred: u64,
}

impl FlowMonitor {
    /// The monitor at `now_ms`: a new second begins once the running one is
    /// over.
    pub open spec fn spec_at(self, now_ms: u64) -> FlowMonitor {
        if now_ms >= self.window_start_ms + 1000 || now_ms < self.window_start_ms {
            FlowMonitor { window_start_ms: now_ms, transferred: 0 }
        } else {
            self
        }
    }

    /// How many bytes may still be sent in the running second.
    pub open spec fn spec_allowance(self, enabled: bool, max_bytes_per_second: u64) -> u64 {
        if !enabled {
            u64::MAX
        } else if self.transferred >= max_bytes_per_second {
            0
        } else {
            (max_bytes_per_second - self.transferred) as u64
        }
    }

    pub fn new(now_ms: u64) -> (monitor: Self)
        ensures
            monitor == (FlowMonitor { window_start_ms: now_ms, transferred: 0 }),
    {
        FlowMonitor { window_start_ms: now_ms, transferred: 0 }
    }

    /// How many bytes may be sent at `now_ms`: without flow control any
    /// number, with it what the limit leaves of the running second.
    pub fn allowance(&mut self, now_ms: u64, enabled: bool, max_bytes_per_second: u64) -> (bytes:
        u64)
        ensures
            *final(self) == old(self).spec_at(now_ms),
            bytes == final(self).spec_allowance(enabled, max_bytes_per_second),
    {
        if now_ms < self.window_start_ms || now_ms - self.window_start_ms >= 1000 {
            self.window_start_ms = now_ms;
            self.transferred = 0;
        }
        if !enabled {
            u64::MAX
        } else if self.transferred >= max_bytes_per_second {
            0
        } else {
            max_bytes_per_second - self.transferred
        }
    }

    /// Takes note of `bytes` bytes that were sent.
    pub fn record(&mut self, bytes: u32)
        ensures
            *final(self) == (FlowMonitor {
                transferred: if old(self).transferred + bytes > u64::MAX {
                    u64::MAX
                } else {
                    (old(self).transferred + bytes) as u64
                },
                ..*old(self)
            }),
    {
        self.transferred = self.transferred.saturating_add(bytes as u64);
    }
}

} // verus!
